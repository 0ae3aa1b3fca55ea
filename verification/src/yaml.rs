//! YAML, lossless.
//!
//! A lossless structural parser, not a YAML semantic parser: [`lex`] puts every
//! input byte into exactly one token, [`build`] nests lines by indentation and
//! puts every token in the tree, in order, and [`validate`] rejects the
//! structural violations that are unambiguous from the token stream. Go
//! templates and other unmodelled content are kept verbatim.
pub mod kind;
pub mod rules;

use crate::cst::{
    all_faithful, child_leaves, child_text, faithful, seq_leaves, lemma_faithful_sum, seq_text, Cst, GreenChild, GreenNode,
    GreenToken, Span, SyntaxKind,
};
use crate::report::{Diagnostic, ParseReport};
use crate::semantic::node_of;
use crate::text::string_of;
use vstd::prelude::*;

pub use self::rules::validate;

verus! {

/// One token: a kind and the byte range it covers.
#[derive(Clone, Copy, Debug)]
pub struct Token {
    /// What it is.
    pub kind: SyntaxKind,
    /// Where it is.
    pub span: Span,
}

/// A source line: indent width and the token range it owns.
#[derive(Clone, Copy, Debug)]
pub struct LineSpan {
    /// Indent columns, or `u32::MAX` for a blank or comment-only line, which is
    /// structurally neutral: it must not re-parent everything that follows it.
    pub indent: u32,
    /// Index of the line's first token.
    pub first: u32,
    /// One past the index of the line's last token.
    pub end: u32,
}

/// Output of [`lex`]: a total cover of the input.
#[derive(Debug)]
pub struct Lexed {
    /// Every byte, in order, in exactly one token.
    pub tokens: Vec<Token>,
    /// Each source line's indent and token range, in order.
    pub lines: Vec<LineSpan>,
    /// Lexical problems. Non-empty means reject.
    pub diagnostics: Vec<Diagnostic>,
}

// --- coverage, as specifications ----------------------------------------------

/// Whether `ts` are non-empty, adjacent spans covering exactly `0..n`.
pub open spec fn tiles(ts: Seq<Token>, n: nat) -> bool {
    &&& forall|i: int| 0 <= i < ts.len() ==> (#[trigger] ts[i]).span.start < ts[i].span.end
    &&& forall|i: int| 0 < i < ts.len() ==> (#[trigger] ts[i]).span.start == ts[i - 1].span.end
    &&& ts.len() == 0 ==> n == 0
    &&& ts.len() > 0 ==> ts[0].span.start == 0 && ts.last().span.end == n
}

/// Number of tokens of kind `ERROR`.
pub open spec fn error_count(ts: Seq<Token>) -> nat
    decreases ts.len(),
{
    if ts.len() == 0 {
        0
    } else {
        error_count(ts.drop_last()) + (if ts.last().kind.0 == kind::ERROR { 1nat } else { 0nat })
    }
}

/// What the lexer says of an unterminated quoted scalar.
pub open spec fn unterminated_message() -> Seq<char> {
    "unterminated quoted scalar: reached end of input before the closing quote"@
}

/// The diagnostics the lexer reports for tokens `ts`: one per error token,
/// in order, over its span.
pub open spec fn error_diags(ts: Seq<Token>) -> Seq<(Span, Seq<char>)>
    decreases ts.len(),
{
    if ts.len() == 0 {
        Seq::empty()
    } else {
        let r = error_diags(ts.drop_last());
        if ts.last().kind.0 == kind::ERROR { r.push((ts.last().span, unterminated_message())) } else { r }
    }
}

/// Diagnostics, viewed: span and message.
pub open spec fn diag_view(ds: Seq<Diagnostic>) -> Seq<(Span, Seq<char>)> {
    Seq::new(ds.len(), |i: int| (ds[i].span, ds[i].message@))
}

pub proof fn lemma_error_diags_append(a: Seq<Token>, b: Seq<Token>)
    ensures
        error_diags(a + b) == error_diags(a) + error_diags(b),
    decreases b.len(),
{
    if b.len() == 0 {
        assert(a + b =~= a);
        assert(error_diags(a) + Seq::<(Span, Seq<char>)>::empty() =~= error_diags(a));
    } else {
        assert((a + b).drop_last() =~= a + b.drop_last());
        lemma_error_diags_append(a, b.drop_last());
        let r = error_diags(b.drop_last());
        assert((error_diags(a) + r).push((b.last().span, unterminated_message())) =~= error_diags(a) + r.push(
            (b.last().span, unterminated_message())));
    }
}

/// The bytes a token covers, or nothing when its span is out of range.
pub open spec fn token_bytes(s: Seq<u8>, t: Token) -> Seq<u8> {
    if t.span.start <= t.span.end && t.span.end <= s.len() {
        s.subrange(t.span.start as int, t.span.end as int)
    } else {
        Seq::empty()
    }
}

/// The concatenated bytes of a sequence of tokens.
pub open spec fn tokens_text(s: Seq<u8>, ts: Seq<Token>) -> Seq<u8>
    decreases ts.len(),
{
    if ts.len() == 0 {
        Seq::empty()
    } else {
        tokens_text(s, ts.drop_last()) + token_bytes(s, ts.last())
    }
}

/// Sum of span lengths.
pub open spec fn span_sum(ts: Seq<Token>) -> int
    decreases ts.len(),
{
    if ts.len() == 0 {
        0
    } else {
        span_sum(ts.drop_last()) + (ts.last().span.end - ts.last().span.start)
    }
}

/// Whether `a` is a prefix of `b`.
pub open spec fn prefix_of<T>(a: Seq<T>, b: Seq<T>) -> bool {
    a.len() <= b.len() && b.subrange(0, a.len() as int) == a
}

/// The state of the lexer between tokens: coverage of `0..pos` so far, and
/// one diagnostic per error token.
pub open spec fn lexing(out: Lexed, pos: nat) -> bool {
    &&& tiles(out.tokens@, pos)
    &&& error_count(out.tokens@) == out.diagnostics@.len()
}

/// Whether line spans partition the tokens from index `f0` to `n`, in order.
pub open spec fn lines_ok(ls: Seq<LineSpan>, f0: nat, n: nat) -> bool {
    &&& forall|j: int| 0 <= j < ls.len() ==> (#[trigger] ls[j]).first <= ls[j].end
    &&& forall|j: int| 0 < j < ls.len() ==> (#[trigger] ls[j]).first == ls[j - 1].end
    &&& ls.len() == 0 ==> n == f0
    &&& ls.len() > 0 ==> ls[0].first == f0 && ls.last().end == n
}

/// Whether `s` starts with a UTF-8 byte-order mark.
pub open spec fn has_bom(s: Seq<u8>) -> bool {
    s.len() >= 3 && s[0] == 0xef && s[1] == 0xbb && s[2] == 0xbf
}

impl Lexed {
    /// What [`lex`] guarantees of its output for an input of `s`: tokens tile
    /// the input, lines partition the tokens after any BOM, and a BOM token
    /// leads exactly when the input has one.
    pub open spec fn wf(&self, s: Seq<u8>) -> bool {
        &&& tiles(self.tokens@, s.len())
        &&& s.len() <= u32::MAX
        &&& self.lines@.len() <= s.len()
        &&& lines_ok(self.lines@, if has_bom(s) { 1nat } else { 0nat }, self.tokens@.len())
        &&& has_bom(s) ==> self.tokens@.len() >= 1 && self.tokens@[0].kind.0 == kind::BOM
    }

    /// Bytes covered by the token stream. Equals the input length after [`lex`].
    pub fn covered(&self) -> (r: usize)
        requires
            forall|i: int| 0 <= i < self.tokens@.len() ==> (#[trigger] self.tokens@[i]).span.start <= self.tokens@[i].span.end,
            span_sum(self.tokens@) <= usize::MAX,
        ensures
            r == span_sum(self.tokens@),
    {
        let mut total: usize = 0;
        let mut i: usize = 0;
        while i < self.tokens.len()
            invariant
                i <= self.tokens@.len(),
                forall|k: int| 0 <= k < self.tokens@.len() ==> (#[trigger] self.tokens@[k]).span.start <= self.tokens@[k].span.end,
                span_sum(self.tokens@) <= usize::MAX,
                total == span_sum(self.tokens@.subrange(0, i as int)),
            decreases self.tokens@.len() - i,
        {
            let t = self.tokens[i];
            proof {
                let s = self.tokens@.subrange(0, i + 1);
                assert(s.drop_last() == self.tokens@.subrange(0, i as int));
                lemma_span_sum_prefix(self.tokens@, i + 1);
                assert(self.tokens@[i as int] == t);
            }
            total = total + (t.span.end - t.span.start) as usize;
            i = i + 1;
        }
        proof {
            assert(self.tokens@.subrange(0, i as int) == self.tokens@);
        }
        total
    }
}

proof fn lemma_span_sum_prefix(ts: Seq<Token>, k: int)
    requires
        0 <= k <= ts.len(),
        forall|i: int| 0 <= i < ts.len() ==> (#[trigger] ts[i]).span.start <= ts[i].span.end,
    ensures
        0 <= span_sum(ts.subrange(0, k)) <= span_sum(ts),
    decreases ts.len(),
{
    if k < ts.len() {
        let t = ts.drop_last();
        assert(t.subrange(0, k) == ts.subrange(0, k));
        assert forall|i: int| 0 <= i < t.len() implies (#[trigger] t[i]).span.start <= t[i].span.end by {
            assert(t[i] == ts[i]);
        }
        lemma_span_sum_prefix(t, k);
        assert(ts[ts.len() - 1].span.start <= ts[ts.len() - 1].span.end);
    } else {
        assert(ts.subrange(0, k) == ts);
        if ts.len() > 0 {
            let t = ts.drop_last();
            assert forall|i: int| 0 <= i < t.len() implies (#[trigger] t[i]).span.start <= t[i].span.end by {
                assert(t[i] == ts[i]);
            }
            lemma_span_sum_prefix(t, t.len() as int);
            assert(t.subrange(0, t.len() as int) == t);
            assert(ts[ts.len() - 1].span.start <= ts[ts.len() - 1].span.end);
        }
    }
}

/// Tokens that tile `0..n` cover `n` bytes in all.
pub proof fn lemma_tiles_span_sum(ts: Seq<Token>, n: nat)
    requires
        tiles(ts, n),
    ensures
        span_sum(ts) == n,
    decreases ts.len(),
{
    if ts.len() > 0 {
        let t = ts.drop_last();
        assert(ts[ts.len() - 1].span.start < ts[ts.len() - 1].span.end);
        if t.len() > 0 {
            assert(t.last() == ts[ts.len() - 2]);
            assert(ts[ts.len() - 1].span.start == ts[ts.len() - 2].span.end);
            lemma_tiles_drop_last(ts, n);
            lemma_tiles_span_sum(t, t.last().span.end as nat);
        } else {
            assert(ts[0] == ts.last());
            assert(span_sum(t) == 0);
        }
    }
}

/// Tokens that tile `0..n` are at most `n` in number.
proof fn lemma_tiles_len(ts: Seq<Token>, n: nat)
    requires
        tiles(ts, n),
    ensures
        ts.len() <= n,
    decreases ts.len(),
{
    if ts.len() > 1 {
        lemma_tiles_drop_last(ts, n);
        lemma_tiles_len(ts.drop_last(), ts[ts.len() - 2].span.end as nat);
        assert(ts[ts.len() - 1].span.start == ts[ts.len() - 2].span.end);
        assert(ts[ts.len() - 1].span.start < ts[ts.len() - 1].span.end);
    } else if ts.len() == 1 {
        assert(ts[0].span.start < ts[0].span.end);
    }
}

proof fn lemma_tiles_drop_last(ts: Seq<Token>, n: nat)
    requires
        tiles(ts, n),
        ts.len() > 1,
    ensures
        tiles(ts.drop_last(), ts[ts.len() - 2].span.end as nat),
{
    let t = ts.drop_last();
    assert forall|i: int| 0 <= i < t.len() implies (#[trigger] t[i]).span.start < t[i].span.end by {
        assert(t[i] == ts[i]);
    }
    assert forall|i: int| 0 < i < t.len() implies (#[trigger] t[i]).span.start == t[i - 1].span.end by {
        assert(t[i] == ts[i]);
        assert(t[i - 1] == ts[i - 1]);
    }
}

/// Tokens that tile `0..n` of `s` concatenate to exactly those bytes.
pub proof fn lemma_tiles_text(s: Seq<u8>, ts: Seq<Token>, n: nat)
    requires
        tiles(ts, n),
        n <= s.len(),
    ensures
        tokens_text(s, ts) == s.subrange(0, n as int),
    decreases ts.len(),
{
    if ts.len() == 0 {
        assert(s.subrange(0, 0) == Seq::<u8>::empty());
    } else {
        let t = ts.drop_last();
        let last = ts.last();
        assert(ts[ts.len() - 1].span.start < ts[ts.len() - 1].span.end);
        if t.len() > 0 {
            lemma_tiles_drop_last(ts, n);
            let m = ts[ts.len() - 2].span.end as nat;
            assert(last.span.start == m);
            lemma_tiles_text(s, t, m);
            assert(token_bytes(s, last) == s.subrange(m as int, n as int));
            assert(s.subrange(0, m as int) + s.subrange(m as int, n as int) == s.subrange(0, n as int));
        } else {
            assert(ts[0] == last);
            assert(tokens_text(s, t) == Seq::<u8>::empty());
            assert(token_bytes(s, last) == s.subrange(0, n as int));
            assert(Seq::<u8>::empty() + s.subrange(0, n as int) == s.subrange(0, n as int));
        }
    }
}

/// Concatenation distributes over token sequences.
pub proof fn lemma_tokens_text_append(s: Seq<u8>, a: Seq<Token>, b: Seq<Token>)
    ensures
        tokens_text(s, a + b) == tokens_text(s, a) + tokens_text(s, b),
    decreases b.len(),
{
    if b.len() == 0 {
        assert(a + b == a);
        assert(tokens_text(s, a) + Seq::<u8>::empty() == tokens_text(s, a));
    } else {
        assert((a + b).drop_last() == a + b.drop_last());
        lemma_tokens_text_append(s, a, b.drop_last());
        vstd::seq_lib::lemma_concat_associative(tokens_text(s, a), tokens_text(s, b.drop_last()), token_bytes(s, b.last()));
    }
}

proof fn lemma_prefix_push<T>(a: Seq<T>, b: Seq<T>, x: T)
    requires
        prefix_of(a, b),
    ensures
        prefix_of(a, b.push(x)),
{
    assert(b.push(x).subrange(0, a.len() as int) == b.subrange(0, a.len() as int));
}

proof fn lemma_prefix_trans<T>(a: Seq<T>, b: Seq<T>, c: Seq<T>)
    requires
        prefix_of(a, b),
        prefix_of(b, c),
    ensures
        prefix_of(a, c),
{
    assert(c.subrange(0, a.len() as int) == c.subrange(0, b.len() as int).subrange(0, a.len() as int));
}

proof fn lemma_push_tiles(ts: Seq<Token>, a: nat, t: Token)
    requires
        tiles(ts, a),
        t.span.start == a,
        t.span.start < t.span.end,
    ensures
        tiles(ts.push(t), t.span.end as nat),
{
    let u = ts.push(t);
    assert forall|i: int| 0 <= i < u.len() implies (#[trigger] u[i]).span.start < u[i].span.end by {
        if i < ts.len() {
            assert(u[i] == ts[i]);
        }
    }
    assert forall|i: int| 0 < i < u.len() implies (#[trigger] u[i]).span.start == u[i - 1].span.end by {
        if i < ts.len() {
            assert(u[i] == ts[i]);
            assert(u[i - 1] == ts[i - 1]);
        } else {
            assert(u[i - 1] == ts[i - 1]);
        }
    }
    if ts.len() > 0 {
        assert(u[0] == ts[0]);
    }
}

// --- the lexer ----------------------------------------------------------------

fn mk_span(start: usize, end: usize) -> (s: Span)
    requires
        start <= u32::MAX,
        end <= u32::MAX,
    ensures
        s.start == start,
        s.end == end,
{
    Span { start: start as u32, end: end as u32 }
}

/// Append a token covering `start..end`, which must follow the tokens so far.
fn push_token(out: &mut Lexed, k: u16, start: usize, end: usize)
    requires
        lexing(*old(out), start as nat),
        k != kind::ERROR,
        start < end <= u32::MAX,
    ensures
        lexing(*final(out), end as nat),
        final(out).lines@ == old(out).lines@,
        final(out).diagnostics@ == old(out).diagnostics@,
        final(out).tokens@ == old(out).tokens@.push(Token { kind: SyntaxKind(k), span: Span { start: start as u32, end: end as u32 } }),
{
    let t = Token { kind: SyntaxKind(k), span: mk_span(start, end) };
    let ghost before = out.tokens@;
    out.tokens.push(t);
    proof {
        lemma_push_tiles(before, start as nat, t);
        assert(out.tokens@.drop_last() == before);
    }
}

/// The byte at `i`, if any.
fn at(input: &[u8], i: usize) -> (r: Option<u8>)
    ensures
        r == (if i < input@.len() { Some(input@[i as int]) } else { None::<u8> }),
{
    if i < input.len() { Some(input[i]) } else { None }
}

/// Whether `i` is at the end of a line: end of input, `\n` or `\r`.
fn at_line_end(input: &[u8], i: usize) -> (r: bool)
    ensures
        r == (i >= input@.len() || input@[i as int] == 10 || input@[i as int] == 13),
{
    i >= input.len() || input[i] == 10 || input[i] == 13
}

/// Whether `needle` occurs at `i`.
fn starts_with(input: &[u8], i: usize, needle: &[u8]) -> (r: bool)
    ensures
        r == (i + needle@.len() <= input@.len() && input@.subrange(i as int, i + needle@.len()) == needle@),
{
    let n = needle.len();
    if i > input.len() || n > input.len() - i {
        return false;
    }
    let mut k: usize = 0;
    while k < n
        invariant
            n == needle@.len(),
            k <= n,
            i + n <= input@.len(),
            input@.len() <= usize::MAX,
            input@.subrange(i as int, i + k) == needle@.subrange(0, k as int),
        decreases n - k,
    {
        let j: usize = i + k;
        if input[j] != needle[k] {
            proof {
                assert(input@.subrange(i as int, i + n)[k as int] != needle@[k as int]);
            }
            return false;
        }
        proof {
            assert(input@.subrange(i as int, i + k + 1) == input@.subrange(i as int, i + k).push(input@[i + k]));
            assert(needle@.subrange(0, k + 1) == needle@.subrange(0, k as int).push(needle@[k as int]));
        }
        k = k + 1;
    }
    proof {
        assert(needle@.subrange(0, k as int) == needle@);
    }
    true
}

fn starts_with_two(input: &[u8], i: usize, a: u8, b: u8) -> (r: bool)
    ensures
        r == (i + 2 <= input@.len() && input@[i as int] == a && input@[i + 1] == b),
{
    i < input.len() && i + 1 < input.len() && input[i] == a && input[i + 1] == b
}

fn starts_with_three(input: &[u8], i: usize, c: u8) -> (r: bool)
    ensures
        r == (i + 3 <= input@.len() && input@[i as int] == c && input@[i + 1] == c && input@[i + 2] == c),
{
    i < input.len() && i + 1 < input.len() && i + 2 < input.len() && input[i] == c && input[i + 1] == c && input[i + 2] == c
}

/// The byte before `pos`, if any.
fn previous(input: &[u8], pos: usize) -> (r: Option<u8>)
    ensures
        r == (if 0 < pos <= input@.len() { Some(input@[pos - 1]) } else { None::<u8> }),
{
    if pos > 0 && pos <= input.len() { Some(input[pos - 1]) } else { None }
}

/// Bytes after which a quote opens a quoted scalar: white space, a line
/// break, and the indicators `:` `-` `,` `[` `{` `?` `!`.
pub open spec fn quote_opener(b: u8) -> bool {
    b == 32 || b == 9 || b == 10 || b == 13 || b == 58 || b == 45 || b == 44 || b == 91 || b == 123 || b == 63 || b == 33
}

/// Whether a quote at `pos` opens: nothing precedes it, or an opener does.
pub open spec fn quote_opens(s: Seq<u8>, pos: int) -> bool {
    !(0 < pos <= s.len()) || quote_opener(s[pos - 1])
}

/// Whether a quote at `pos` opens a quoted scalar rather than sitting inside a plain one.
fn quote_can_open(input: &[u8], pos: usize) -> (r: bool)
    ensures
        r == quote_opens(input@, pos as int),
{
    match previous(input, pos) {
        None => true,
        Some(b) => b == 32 || b == 9 || b == 10 || b == 13 || b == 58 || b == 45 || b == 44 || b == 91 || b == 123 || b == 63 || b == 33,
    }
}

/// Whether a byte may appear in an anchor or alias name: an ASCII letter or
/// digit, `-`, `_` or `.`.
pub open spec fn name_byte(b: u8) -> bool {
    (48 <= b && b <= 57) || (65 <= b && b <= 90) || (97 <= b && b <= 122) || b == 45 || b == 95 || b == 46
}

/// Bytes that may appear in an anchor or alias name.
fn is_name_byte(byte: Option<u8>) -> (r: bool)
    ensures
        r == (byte matches Some(b) && name_byte(b)),
{
    match byte {
        Some(b) => (48 <= b && b <= 57) || (65 <= b && b <= 90) || (97 <= b && b <= 122) || b == 45 || b == 95 || b == 46,
        None => false,
    }
}

/// Whether `pos` starts the input or follows a line feed.
fn line_start_is_column_zero(input: &[u8], pos: usize) -> (r: bool)
    ensures
        r == (pos == 0 || (0 < pos <= input@.len() && input@[pos - 1] == 10)),
{
    pos == 0 || previous(input, pos) == Some(10u8)
}

/// Where the run of spaces and tabs that ends at `pos` starts.
pub open spec fn indent_back(s: Seq<u8>, pos: int) -> int
    decreases pos,
{
    if 0 < pos <= s.len() && (s[pos - 1] == 32 || s[pos - 1] == 9) { indent_back(s, pos - 1) } else { pos }
}

/// `pos` if only indentation precedes it on its line, else `usize::MAX`.
fn line_start_after_indent(input: &[u8], pos: usize) -> (r: usize)
    ensures
        ({
            let st = indent_back(input@, pos as int);
            r == if st == 0 || (0 < st <= input@.len() && input@[st - 1] == 10) { pos } else { usize::MAX }
        }),
{
    let mut start = pos;
    while start > 0
        invariant
            start <= pos,
            indent_back(input@, pos as int) == indent_back(input@, start as int),
        ensures
            indent_back(input@, pos as int) == start as int,
        decreases start,
    {
        match previous(input, start) {
            Some(b) => {
                if b == 32 || b == 9 {
                    start = start - 1;
                } else {
                    break;
                }
            },
            None => break,
        }
    }
    if start == 0 || previous(input, start) == Some(10u8) {
        pos
    } else {
        usize::MAX
    }
}

// --- what the lexer produces, as specifications ---------------------------------

/// The byte at `i`, if there is one.
pub open spec fn byte_at(s: Seq<u8>, i: int) -> Option<u8> {
    if 0 <= i < s.len() { Some(s[i]) } else { None }
}

/// Whether `i` is at the end of a line: end of input, `\n` or `\r`.
pub open spec fn line_end_at(s: Seq<u8>, i: int) -> bool {
    i >= s.len() || s[i] == 10 || s[i] == 13
}

/// The first end of line at or after `p`.
pub open spec fn line_end_from(s: Seq<u8>, p: int) -> int
    decreases s.len() - p,
{
    if p < 0 || line_end_at(s, p) { p } else { line_end_from(s, p + 1) }
}

/// Where the run of spaces and tabs from `p` ends.
pub open spec fn blanks_end(s: Seq<u8>, p: int) -> int
    decreases s.len() - p,
{
    if byte_at(s, p) == Some(32u8) || byte_at(s, p) == Some(9u8) { blanks_end(s, p + 1) } else { p }
}

/// Whether `{{` opens at `p`.
pub open spec fn opens_template(s: Seq<u8>, p: int) -> bool {
    0 <= p && p + 2 <= s.len() && s[p] == 123 && s[p + 1] == 123
}

/// Whether `}}` closes at `p`.
pub open spec fn closes_template(s: Seq<u8>, p: int) -> bool {
    0 <= p && p + 2 <= s.len() && s[p] == 125 && s[p + 1] == 125
}

/// Where a template whose `depth` braces are open at `p` ends: after the
/// `}}` that closes the outermost, or at the end of its line.
pub open spec fn template_from(s: Seq<u8>, p: int, depth: nat) -> int
    decreases s.len() - p,
{
    if p < 0 || p >= s.len() {
        p
    } else if closes_template(s, p) {
        if depth <= 1 { p + 2 } else { template_from(s, p + 2, (depth - 1) as nat) }
    } else if opens_template(s, p) {
        template_from(s, p + 2, depth + 1)
    } else if s[p] == 10 || s[p] == 13 {
        p
    } else {
        template_from(s, p + 1, depth)
    }
}

/// Where the Go template opening at `p` ends.
pub open spec fn template_end(s: Seq<u8>, p: int) -> int {
    template_from(s, p + 2, 1)
}

/// A quoted scalar from `p`, just after its opening `quote`: its kind and
/// where it ends. Templates inside are skipped whole; `''` is an escaped
/// single quote and `\` escapes a byte in a double-quoted one; an input that
/// ends first makes an error token.
pub open spec fn quoted_from(s: Seq<u8>, p: int, quote: u8) -> (u16, int)
    decreases s.len() - p,
{
    if p < 0 || p >= s.len() {
        (kind::ERROR, p)
    } else if opens_template(s, p) {
        let e = template_end(s, p);
        if p < e <= s.len() { quoted_from(s, e, quote) } else { (kind::ERROR, p) }
    } else if s[p] == quote {
        if quote == 39 && byte_at(s, p + 1) == Some(39u8) {
            quoted_from(s, p + 2, quote)
        } else {
            (if quote == 39 { kind::SINGLE_QUOTED } else { kind::DOUBLE_QUOTED }, p + 1)
        }
    } else if quote == 34 && s[p] == 92 && p + 1 < s.len() {
        quoted_from(s, p + 2, quote)
    } else {
        quoted_from(s, p + 1, quote)
    }
}

/// Where the anchor or alias name from `p` ends.
pub open spec fn name_from(s: Seq<u8>, p: int) -> int
    decreases s.len() - p,
{
    if byte_at(s, p) matches Some(b) && name_byte(b) { name_from(s, p + 1) } else { p }
}

/// Where a verbatim tag `!<...` from `p` reaches its `>` or the end of line.
pub open spec fn tag_angle(s: Seq<u8>, p: int) -> int
    decreases s.len() - p,
{
    if p >= 0 && !line_end_at(s, p) && byte_at(s, p) != Some(62u8) { tag_angle(s, p + 1) } else { p }
}

/// Where a shorthand tag from `p` ends: at white space or a line break.
pub open spec fn tag_plain(s: Seq<u8>, p: int) -> int
    decreases s.len() - p,
{
    if 0 <= p < s.len() && !(s[p] == 32 || s[p] == 9 || s[p] == 10 || s[p] == 12 || s[p] == 13) { tag_plain(s, p + 1) } else { p }
}

/// Where a tag whose `!` is just before `p` ends.
pub open spec fn tag_end(s: Seq<u8>, p: int) -> int {
    if byte_at(s, p) == Some(60u8) {
        let a = tag_angle(s, p);
        if byte_at(s, a) == Some(62u8) { a + 1 } else { a }
    } else {
        tag_plain(s, p)
    }
}

/// Where the indicators of a block scalar header (`+`, `-`, digits) from `p` end.
pub open spec fn header_from(s: Seq<u8>, p: int) -> int
    decreases s.len() - p,
{
    if byte_at(s, p) == Some(43u8) || byte_at(s, p) == Some(45u8) || (0 <= p < s.len() && 48 <= s[p] && s[p] <= 57) {
        header_from(s, p + 1)
    } else {
        p
    }
}

/// Where the line break at `p` ends: after `\r`, `\n` or `\r\n`, or at `p`.
pub open spec fn break_end(s: Seq<u8>, p: int) -> int {
    let p1 = if byte_at(s, p) == Some(13u8) { p + 1 } else { p };
    if byte_at(s, p1) == Some(10u8) { p1 + 1 } else { p1 }
}

/// Where a block scalar's body ends, from the end of a line `p` it holds:
/// every following line that is blank or indented deeper than `header`
/// columns belongs to it.
pub open spec fn body_lines(s: Seq<u8>, p: int, header: nat) -> int
    decreases s.len() - p,
{
    let next = break_end(s, p);
    if next == p {
        p
    } else {
        let probe = blanks_end(s, next);
        let blank = probe >= s.len() || s[probe] == 10 || s[probe] == 13;
        if !blank && probe - next <= header {
            p
        } else {
            let e = line_end_from(s, probe);
            if p < e <= s.len() { body_lines(s, e, header) } else { p }
        }
    }
}

/// Where a block scalar's body ends, when its header ends at `h` on a line
/// that starts at `line_start`.
pub open spec fn block_end(s: Seq<u8>, h: int, line_start: int) -> int {
    body_lines(s, line_end_from(s, h), blank_run(s, line_start))
}

/// Whether a plain scalar stops at `p`: a line end, a template, a `:` that
/// separates, flow punctuation, or a `#` after white space.
pub open spec fn plain_stops(s: Seq<u8>, p: int) -> bool {
    ||| line_end_at(s, p)
    ||| opens_template(s, p)
    ||| (s[p] == 58 && separates(s, p + 1))
    ||| (s[p] == 44 || s[p] == 91 || s[p] == 93 || s[p] == 123 || s[p] == 125)
    ||| (s[p] == 35 && (byte_at(s, p - 1) == Some(32u8) || byte_at(s, p - 1) == Some(9u8)))
}

/// Whether what is at `p` separates an indicator: nothing, a space, a tab or a line break.
pub open spec fn separates(s: Seq<u8>, p: int) -> bool {
    byte_at(s, p) == None::<u8> || byte_at(s, p) == Some(32u8) || byte_at(s, p) == Some(9u8) || byte_at(s, p) == Some(10u8)
        || byte_at(s, p) == Some(13u8)
}

/// The first place at or after `p` where a plain scalar stops.
pub open spec fn plain_stop(s: Seq<u8>, p: int) -> int
    decreases s.len() - p,
{
    if p < 0 || plain_stops(s, p) { p } else { plain_stop(s, p + 1) }
}

/// `q` moved back over trailing spaces and tabs, never to `start` or before.
pub open spec fn trim_back(s: Seq<u8>, start: int, q: int) -> int
    decreases q - start,
{
    if q > start + 1 && (byte_at(s, q - 1) == Some(32u8) || byte_at(s, q - 1) == Some(9u8)) { trim_back(s, start, q - 1) } else { q }
}

/// Where a plain scalar from `start` ends: at its stop, at least one byte on,
/// without trailing white space.
pub open spec fn plain_end(s: Seq<u8>, start: int) -> int {
    let q = plain_stop(s, start);
    trim_back(s, start, if q == start { start + 1 } else { q })
}

/// A token of kind `k` over `a..b`.
pub open spec fn tok(k: u16, a: int, b: int) -> Token {
    Token { kind: SyntaxKind(k), span: Span { start: a as u32, end: b as u32 } }
}

/// Whether only spaces and tabs precede `p` on its line.
pub open spec fn only_indent_before(s: Seq<u8>, p: int) -> bool {
    let st = indent_back(s, p);
    st == 0 || (0 < st <= s.len() && s[st - 1] == 10)
}

/// The tokens one step of a line body makes at `p`, which is not a line
/// end, and where the step stops. `line_start` is where the line began.
pub open spec fn body_step(s: Seq<u8>, p: int, line_start: int) -> (Seq<Token>, int) {
    let b = s[p];
    if opens_template(s, p) {
        let e = template_end(s, p);
        (seq![tok(kind::VERBATIM, p, e)], e)
    } else if b == 32 || b == 9 {
        let e = blanks_end(s, p);
        (seq![tok(kind::SPACE, p, e)], e)
    } else if b == 35 {
        let e = line_end_from(s, p);
        (seq![tok(kind::COMMENT, p, e)], e)
    } else if b == 45 && only_indent_before(s, p) && p + 3 <= s.len() && s[p + 1] == 45 && s[p + 2] == 45 {
        (seq![tok(kind::DOC_START, p, p + 3)], p + 3)
    } else if b == 46 && p + 3 <= s.len() && s[p + 1] == 46 && s[p + 2] == 46 {
        (seq![tok(kind::DOC_END, p, p + 3)], p + 3)
    } else if b == 45 && separates(s, p + 1) {
        (seq![tok(kind::DASH, p, p + 1)], p + 1)
    } else if b == 58 {
        (seq![tok(kind::COLON, p, p + 1)], p + 1)
    } else if b == 44 || b == 91 || b == 93 || b == 123 || b == 125 {
        (seq![tok(kind::FLOW_PUNCT, p, p + 1)], p + 1)
    } else if (b == 38 || b == 42) && (byte_at(s, p + 1) matches Some(c) && name_byte(c)) {
        let e = name_from(s, p + 1);
        (seq![tok(if b == 38 { kind::ANCHOR } else { kind::ALIAS }, p, e)], e)
    } else if b == 33 {
        let e = tag_end(s, p + 1);
        (seq![tok(kind::TAG, p, e)], e)
    } else if (b == 39 || b == 34) && quote_opens(s, p) {
        let (k, e) = quoted_from(s, p + 1, b);
        (seq![tok(k, p, e)], e)
    } else if b == 124 || b == 62 {
        let h = header_from(s, p + 1);
        let probe = blanks_end(s, h);
        if probe >= s.len() || s[probe] == 10 || s[probe] == 13 || s[probe] == 35 {
            let e = block_end(s, h, line_start);
            (seq![tok(kind::BLOCK_HEADER, p, h)] + if e > h { seq![tok(kind::BLOCK_BODY, h, e)] } else { Seq::empty() }, e)
        } else {
            (seq![tok(kind::PLAIN, p, h)], h)
        }
    } else {
        let e = plain_end(s, p);
        (seq![tok(kind::PLAIN, p, e)], e)
    }
}

/// The tokens of a line body from `p` to its end of line, and where it ends.
pub open spec fn body_toks(s: Seq<u8>, p: int, line_start: int) -> (Seq<Token>, int)
    decreases s.len() - p,
{
    if p < 0 || line_end_at(s, p) {
        (Seq::empty(), p)
    } else {
        let (t, e) = body_step(s, p, line_start);
        if p < e <= s.len() {
            let (r, f) = body_toks(s, e, line_start);
            (t + r, f)
        } else {
            (t, e)
        }
    }
}

/// The tokens of a line body after its indentation, and where it ends: a
/// whole directive line outside document content, else its steps.
pub open spec fn line_body(s: Seq<u8>, p: int, line_start: int, in_content: bool) -> (Seq<Token>, int) {
    if !in_content && p == line_start && byte_at(s, p) == Some(37u8) && (p == 0 || (0 < p <= s.len() && s[p - 1] == 10)) {
        let e = line_end_from(s, p);
        (seq![tok(kind::DIRECTIVE, p, e)], e)
    } else {
        body_toks(s, p, line_start)
    }
}

/// The line terminator at `p`: a `NEWLINE` token over `\r`, `\n` or
/// `\r\n`, none at the end of input, and where it ends.
pub open spec fn terminator(s: Seq<u8>, p: int) -> (Seq<Token>, int) {
    if p >= s.len() {
        (Seq::empty(), p)
    } else {
        let e = break_end(s, p);
        if e == p { (seq![tok(kind::PLAIN, p, p + 1)], p + 1) } else { (seq![tok(kind::NEWLINE, p, e)], e) }
    }
}

/// One line from `pos`: its tokens (indentation, body, terminator), where
/// the next line starts, and its indent (`u32::MAX` when the line is blank
/// or a comment).
pub open spec fn one_line(s: Seq<u8>, pos: int, in_content: bool) -> (Seq<Token>, int, u32) {
    let p1 = blanks_end(s, pos);
    let ind = if p1 > pos { seq![tok(kind::INDENT, pos, p1)] } else { Seq::empty() };
    let neutral = line_end_at(s, p1) || byte_at(s, p1) == Some(35u8);
    let (bt, p2) = line_body(s, p1, pos, in_content);
    let (tt, p3) = terminator(s, p2);
    (ind + bt + tt, p3, if neutral { u32::MAX } else { (p1 - pos) as u32 })
}

/// Whether the lexer is in document content after a line with tokens `lt`.
pub open spec fn content_after(lt: Seq<Token>, in_content: bool) -> bool {
    match first_significant(lt, 0, lt.len() as int) {
        Some(k) => if k == kind::DOC_END { false } else if k != kind::DIRECTIVE { true } else { in_content },
        None => in_content,
    }
}

/// The tokens and line spans of the lines from `pos`, whose tokens are
/// numbered from `base`.
pub open spec fn lines_from(s: Seq<u8>, pos: int, in_content: bool, base: nat) -> (Seq<Token>, Seq<LineSpan>)
    decreases s.len() - pos,
{
    if pos < 0 || pos >= s.len() {
        (Seq::empty(), Seq::empty())
    } else {
        let (lt, q, ind) = one_line(s, pos, in_content);
        let l = LineSpan { indent: ind, first: base as u32, end: (base + lt.len()) as u32 };
        if pos < q <= s.len() {
            let (rt, rl) = lines_from(s, q, content_after(lt, in_content), base + lt.len());
            (lt + rt, seq![l] + rl)
        } else {
            (lt, seq![l])
        }
    }
}

/// The tokens the YAML lexer makes of `s`: a byte-order mark, then each line's.
pub open spec fn yaml_tokens(s: Seq<u8>) -> Seq<Token> {
    if has_bom(s) { seq![tok(kind::BOM, 0, 3)] + lines_from(s, 3, false, 1).0 } else { lines_from(s, 0, false, 0).0 }
}

/// The line spans the YAML lexer makes of `s`.
pub open spec fn yaml_lines(s: Seq<u8>) -> Seq<LineSpan> {
    if has_bom(s) { lines_from(s, 3, false, 1).1 } else { lines_from(s, 0, false, 0).1 }
}

/// `{{ ... }}`, tracking nesting; an unterminated template runs to end of line.
fn lex_verbatim_template(input: &[u8], pos: usize) -> (r: usize)
    requires
        pos + 2 <= input@.len() <= u32::MAX,
    ensures
        pos + 2 <= r <= input@.len(),
        r == template_end(input@, pos as int),
{
    let mut p = pos + 2;
    let mut depth: usize = 1;
    while p < input.len()
        invariant
            pos + 2 <= p <= input@.len(),
            input@.len() <= u32::MAX,
            1 <= depth <= p,
            template_end(input@, pos as int) == template_from(input@, p as int, depth as nat),
        decreases input@.len() - p,
    {
        if starts_with_two(input, p, 125, 125) {
            p = p + 2;
            depth = depth - 1;
            if depth == 0 {
                return p;
            }
            continue;
        }
        if starts_with_two(input, p, 123, 123) {
            p = p + 2;
            depth = depth + 1;
            continue;
        }
        if input[p] == 10 || input[p] == 13 {
            return p;
        }
        p = p + 1;
    }
    p
}

/// A quoted scalar, which may span lines. An unterminated quote is reported.
fn lex_quoted(input: &[u8], pos: usize, quote: u8, diagnostics: &mut Vec<Diagnostic>) -> (r: (u16, usize))
    requires
        pos < input@.len() <= u32::MAX,
    ensures
        pos < r.1 <= input@.len(),
        (r.0, r.1 as int) == quoted_from(input@, pos + 1, quote),
        r.0 == kind::ERROR ==> final(diagnostics)@.len() == old(diagnostics)@.len() + 1,
        r.0 != kind::ERROR ==> final(diagnostics)@.len() == old(diagnostics)@.len(),
        r.0 == kind::ERROR ==> diag_view(final(diagnostics)@) == diag_view(old(diagnostics)@).push(
            (Span { start: pos as u32, end: r.1 as u32 }, unterminated_message()),
        ),
        r.0 != kind::ERROR ==> final(diagnostics)@ == old(diagnostics)@,
{
    let start = pos;
    let mut p = pos + 1;
    while p < input.len()
        invariant
            start == pos,
            start < p <= input@.len(),
            input@.len() <= u32::MAX,
            diagnostics@ == old(diagnostics)@,
            quoted_from(input@, pos + 1, quote) == quoted_from(input@, p as int, quote),
        decreases input@.len() - p,
    {
        let byte = input[p];
        if starts_with_two(input, p, 123, 123) {
            p = lex_verbatim_template(input, p);
            continue;
        }
        if byte == quote {
            if quote == 39 && at(input, p + 1) == Some(39u8) {
                p = p + 2;
                continue;
            }
            p = p + 1;
            let k: u16 = if quote == 39 { kind::SINGLE_QUOTED } else { kind::DOUBLE_QUOTED };
            return (k, p);
        }
        if quote == 34 && byte == 92 && p + 1 < input.len() {
            p = p + 2;
            continue;
        }
        p = p + 1;
    }
    let ghost d0 = diagnostics@;
    diagnostics.push(Diagnostic::new(
        mk_span(start, p),
        "unterminated quoted scalar: reached end of input before the closing quote",
    ));
    proof {
        assert(diag_view(diagnostics@) =~= diag_view(d0).push((Span { start: pos as u32, end: p as u32 }, unterminated_message())));
    }
    (kind::ERROR, p)
}

/// How many spaces and tabs run from `i`.
pub open spec fn blank_run(s: Seq<u8>, i: int) -> nat
    decreases s.len() - i,
{
    if 0 <= i < s.len() && (s[i] == 32 || s[i] == 9) { 1 + blank_run(s, i + 1) } else { 0 }
}

/// The width of the spaces and tabs a line starts with.
fn indent_width_at(input: &[u8], line_start: usize) -> (r: u32)
    requires
        input@.len() <= u32::MAX,
    ensures
        r == blank_run(input@, line_start as int),
{
    let mut probe = line_start;
    while probe < input.len() && (input[probe] == 32 || input[probe] == 9)
        invariant
            line_start <= probe,
            probe <= input@.len() || probe == line_start,
            blank_run(input@, line_start as int) == (probe - line_start) + blank_run(input@, probe as int),
        decreases input@.len() - probe,
    {
        probe = probe + 1;
    }
    let w = probe - line_start;
    if w > 4294967295usize { 4294967295u32 } else { w as u32 }
}

/// The body of a block scalar: every following line that is blank or indented
/// deeper than the line that introduced the header.
fn lex_block_body(input: &[u8], pos: usize, out: &mut Lexed, header_line_start: usize) -> (r: usize)
    requires
        lexing(*old(out), pos as nat),
        pos <= input@.len() <= u32::MAX,
    ensures
        pos <= r <= input@.len(),
        r == block_end(input@, pos as int, header_line_start as int),
        lexing(*final(out), r as nat),
        final(out).lines@ == old(out).lines@,
        final(out).tokens@ == old(out).tokens@ + if r > pos { seq![tok(kind::BLOCK_BODY, pos as int, r as int)] } else { Seq::<Token>::empty() },
        final(out).diagnostics@ == old(out).diagnostics@,
        prefix_of(old(out).tokens@, final(out).tokens@),
{
    let ghost s = input@;
    let header_indent = indent_width_at(input, header_line_start);
    let ghost hi = header_indent as nat;
    let body_start = pos;
    let mut p = pos;
    while !at_line_end(input, p)
        invariant
            input@.len() <= u32::MAX,
            body_start <= p <= input@.len(),
            line_end_from(input@, pos as int) == line_end_from(input@, p as int),
        decreases input@.len() - p,
    {
        p = p + 1;
    }
    let ghost p0 = p as int;
    loop
        invariant
            s == input@,
            input@.len() <= u32::MAX,
            body_start <= p <= input@.len(),
            hi == header_indent as nat,
            body_lines(s, p0, hi) == body_lines(s, p as int, hi),
        ensures
            body_start <= p <= input@.len(),
            p as int == body_lines(s, p0, hi),
        decreases input@.len() - p,
    {
        let line_break = p;
        if at(input, p) == Some(13u8) {
            p = p + 1;
        }
        if at(input, p) == Some(10u8) {
            p = p + 1;
        }
        if p == line_break {
            break;
        }
        let content_start = p;
        assert(line_break < content_start);
        let mut probe = p;
        while probe < input.len() && (input[probe] == 32 || input[probe] == 9)
            invariant
                input@.len() <= u32::MAX,
                content_start <= probe <= input@.len(),
                blanks_end(input@, content_start as int) == blanks_end(input@, probe as int),
            decreases input@.len() - probe,
        {
            probe = probe + 1;
        }
        let blank = probe >= input.len() || input[probe] == 10 || input[probe] == 13;
        let w = probe - content_start;
        let indent: u32 = if w > 4294967295usize { 4294967295u32 } else { w as u32 };
        if !blank && indent <= header_indent {
            p = line_break;
            break;
        }
        p = probe;
        while !at_line_end(input, p)
            invariant
                input@.len() <= u32::MAX,
                line_break < p <= input@.len(),
                body_start <= p,
                line_end_from(input@, probe as int) == line_end_from(input@, p as int),
            decreases input@.len() - p,
        {
            p = p + 1;
        }
    }
    let ghost before = out.tokens@;
    if p > body_start {
        push_token(out, kind::BLOCK_BODY, body_start, p);
        proof {
            assert(out.tokens@.subrange(0, before.len() as int) == before);
        }
    } else {
        proof {
            assert(out.tokens@.subrange(0, before.len() as int) == before);
            assert(out.tokens@ =~= before + Seq::<Token>::empty());
        }
    }
    p
}

/// One step of a line body at `p`, which is not a line end: the tokens
/// [`body_step`] says, each error token with its diagnostic.
#[verifier::rlimit(80)]
#[verifier::spinoff_prover]
fn lex_step(input: &[u8], p: usize, out: &mut Lexed, line_start: usize) -> (r: usize)
    requires
        lexing(*old(out), p as nat),
        p < input@.len() <= u32::MAX,
        !line_end_at(input@, p as int),
    ensures
        p < r <= input@.len(),
        lexing(*final(out), r as nat),
        final(out).lines@ == old(out).lines@,
        final(out).tokens@ == old(out).tokens@ + body_step(input@, p as int, line_start as int).0,
        r as int == body_step(input@, p as int, line_start as int).1,
        diag_view(final(out).diagnostics@) == diag_view(old(out).diagnostics@) + error_diags(body_step(input@, p as int, line_start as int).0),
{
    let ghost s = input@;
    let ghost ls = line_start as int;
    let mut p = p;
    let start = p;
    let byte = input[p];
    let ghost tb = out.tokens@;
    let ghost db = diag_view(out.diagnostics@);
    let ghost step = body_step(s, start as int, ls);
    if starts_with_two(input, p, 123, 123) {
        p = lex_verbatim_template(input, p);
        push_token(out, kind::VERBATIM, start, p);
        proof {
            assert(step == (seq![tok(kind::VERBATIM, start as int, p as int)], p as int));
            assert(out.tokens@ =~= tb + step.0);
            lemma_error_diags_one(tok(kind::VERBATIM, start as int, p as int));
            assert(diag_view(out.diagnostics@) =~= db + error_diags(step.0));
        }
        return p;
    }
    let k: u16;
    if byte == 32 || byte == 9 {
        while at(input, p) == Some(32u8) || at(input, p) == Some(9u8)
            invariant
                input@.len() <= u32::MAX,
                start <= p <= input@.len(),
                blanks_end(input@, start as int) == blanks_end(input@, p as int),
            decreases input@.len() - p,
        {
            p = p + 1;
        }
        k = kind::SPACE;
    } else if byte == 35 {
        while !at_line_end(input, p)
            invariant
                input@.len() <= u32::MAX,
                start <= p <= input@.len(),
                line_end_from(input@, start as int) == line_end_from(input@, p as int),
            decreases input@.len() - p,
        {
            p = p + 1;
        }
        k = kind::COMMENT;
    } else if byte == 45 && p == line_start_after_indent(input, p) && starts_with_three(input, p, 45) {
        p = p + 3;
        k = kind::DOC_START;
    } else if byte == 46 && starts_with_three(input, p, 46) {
        p = p + 3;
        k = kind::DOC_END;
    } else if byte == 45 && (at(input, p + 1) == None::<u8> || at(input, p + 1) == Some(32u8) || at(input, p + 1) == Some(9u8)
        || at(input, p + 1) == Some(10u8) || at(input, p + 1) == Some(13u8)) {
        p = p + 1;
        k = kind::DASH;
    } else if byte == 58 {
        p = p + 1;
        k = kind::COLON;
    } else if byte == 44 || byte == 91 || byte == 93 || byte == 123 || byte == 125 {
        p = p + 1;
        k = kind::FLOW_PUNCT;
    } else if (byte == 38 || byte == 42) && is_name_byte(at(input, p + 1)) {
        p = p + 1;
        while is_name_byte(at(input, p)) && p < input.len()
            invariant
                input@.len() <= u32::MAX,
                start < p <= input@.len(),
                name_from(input@, start + 1) == name_from(input@, p as int),
            decreases input@.len() - p,
        {
            p = p + 1;
        }
        k = if byte == 38 { kind::ANCHOR } else { kind::ALIAS };
    } else if byte == 33 {
        p = p + 1;
        if at(input, p) == Some(60u8) {
            while !at_line_end(input, p) && at(input, p) != Some(62u8)
                invariant
                    input@.len() <= u32::MAX,
                    start < p <= input@.len(),
                    tag_angle(input@, start + 1) == tag_angle(input@, p as int),
                decreases input@.len() - p,
            {
                p = p + 1;
            }
            if at(input, p) == Some(62u8) {
                p = p + 1;
            }
        } else {
            while p < input.len() && !(input[p] == 32 || input[p] == 9 || input[p] == 10 || input[p] == 12 || input[p] == 13)
                invariant
                    input@.len() <= u32::MAX,
                    start < p <= input@.len(),
                    tag_plain(input@, start + 1) == tag_plain(input@, p as int),
                decreases input@.len() - p,
            {
                p = p + 1;
            }
        }
        k = kind::TAG;
    } else if (byte == 39 || byte == 34) && quote_can_open(input, p) {
        let r = lex_quoted(input, p, byte, &mut out.diagnostics);
        p = r.1;
        k = r.0;
    } else if byte == 124 || byte == 62 {
        p = p + 1;
        while at(input, p) == Some(43u8) || at(input, p) == Some(45u8) || (p < input.len() && 48 <= input[p] && input[p] <= 57)
            invariant
                input@.len() <= u32::MAX,
                start < p <= input@.len(),
                header_from(input@, start + 1) == header_from(input@, p as int),
            decreases input@.len() - p,
        {
            p = p + 1;
        }
        let header_end = p;
        let mut probe = p;
        while probe < input.len() && (input[probe] == 32 || input[probe] == 9)
            invariant
                input@.len() <= u32::MAX,
                header_end <= probe <= input@.len(),
                blanks_end(input@, header_end as int) == blanks_end(input@, probe as int),
            decreases input@.len() - probe,
        {
            probe = probe + 1;
        }
        let is_header = probe >= input.len() || input[probe] == 10 || input[probe] == 13 || input[probe] == 35;
        if is_header {
            push_token(out, kind::BLOCK_HEADER, start, header_end);
            let ghost tm = out.tokens@;
            p = lex_block_body(input, header_end, out, line_start);
            proof {
                let hd = tok(kind::BLOCK_HEADER, start as int, header_end as int);
                let body = if p > header_end { seq![tok(kind::BLOCK_BODY, header_end as int, p as int)] } else { Seq::<Token>::empty() };
                assert(step == (seq![hd] + body, p as int));
                assert(out.tokens@ =~= tb + step.0);
                lemma_error_diags_one(hd);
                lemma_error_diags_append(seq![hd], body);
                if p > header_end {
                    lemma_error_diags_one(tok(kind::BLOCK_BODY, header_end as int, p as int));
                } else {
                    assert(error_diags(body) =~= Seq::<(Span, Seq<char>)>::empty());
                }
                assert(diag_view(out.diagnostics@) =~= db + error_diags(step.0));
            }
            return p;
        }
        k = kind::PLAIN;
    } else {
        loop
            invariant
                input@.len() <= u32::MAX,
                start <= p <= input@.len(),
                start < input@.len(),
                plain_stop(input@, start as int) == plain_stop(input@, p as int),
            ensures
                start <= p <= input@.len(),
                p as int == plain_stop(input@, start as int),
            decreases input@.len() - p,
        {
            if at_line_end(input, p) {
                break;
            }
            if starts_with_two(input, p, 123, 123) {
                break;
            }
            let c = input[p];
            if c == 58 && (at(input, p + 1) == None::<u8> || at(input, p + 1) == Some(32u8) || at(input, p + 1) == Some(9u8)
                || at(input, p + 1) == Some(10u8) || at(input, p + 1) == Some(13u8)) {
                break;
            }
            if c == 44 || c == 91 || c == 93 || c == 123 || c == 125 {
                break;
            }
            if c == 35 && (previous(input, p) == Some(32u8) || previous(input, p) == Some(9u8)) {
                break;
            }
            p = p + 1;
        }
        if p == start {
            p = p + 1;
        }
        let ghost q1 = p as int;
        while p > start + 1 && (previous(input, p) == Some(32u8) || previous(input, p) == Some(9u8))
            invariant
                input@.len() <= u32::MAX,
                start + 1 <= p <= input@.len(),
                trim_back(input@, start as int, q1) == trim_back(input@, start as int, p as int),
            decreases p,
        {
            p = p - 1;
        }
        k = kind::PLAIN;
    }
    if k == kind::ERROR {
        let t = Token { kind: SyntaxKind(k), span: mk_span(start, p) };
        out.tokens.push(t);
        proof {
            lemma_push_tiles(tb, start as nat, t);
            assert(out.tokens@.drop_last() == tb);
            assert(error_count(out.tokens@) == error_count(tb) + 1);
        }
    } else {
        push_token(out, k, start, p);
    }
    proof {
        assert(out.tokens@ == tb.push(out.tokens@.last()));
        assert(out.tokens@.last() == tok(k, start as int, p as int));
        assert(step == (seq![tok(k, start as int, p as int)], p as int));
        assert(out.tokens@ =~= tb + step.0);
        lemma_error_diags_one(tok(k, start as int, p as int));
        assert(diag_view(out.diagnostics@) =~= db + error_diags(step.0));
    }
    p
}

/// The diagnostics of one token: one if it is an error token.
proof fn lemma_error_diags_one(t: Token)
    ensures
        error_diags(seq![t]) == if t.kind.0 == kind::ERROR { seq![(t.span, unterminated_message())] } else { Seq::<(Span, Seq<char>)>::empty() },
{
    assert(seq![t].drop_last() =~= Seq::<Token>::empty());
    assert(seq![t].last() == t);
    assert(error_diags(Seq::<Token>::empty()) =~= Seq::<(Span, Seq<char>)>::empty());
    assert(Seq::<(Span, Seq<char>)>::empty().push((t.span, unterminated_message())) =~= seq![(t.span, unterminated_message())]);
}

/// Everything on a line after its indentation, up to the line terminator.
#[verifier::rlimit(80)]
#[verifier::spinoff_prover]
fn lex_line_body(input: &[u8], pos: usize, out: &mut Lexed, line_start: usize, in_content: bool) -> (r: usize)
    requires
        lexing(*old(out), pos as nat),
        line_start <= pos <= input@.len() <= u32::MAX,
    ensures
        pos <= r <= input@.len(),
        lexing(*final(out), r as nat),
        final(out).lines@ == old(out).lines@,
        prefix_of(old(out).tokens@, final(out).tokens@),
        !(pos >= input@.len() || input@[pos as int] == 10 || input@[pos as int] == 13) ==> r > pos,
        r >= input@.len() || input@[r as int] == 10 || input@[r as int] == 13,
        final(out).tokens@ == old(out).tokens@ + line_body(input@, pos as int, line_start as int, in_content).0,
        r as int == line_body(input@, pos as int, line_start as int, in_content).1,
        diag_view(final(out).diagnostics@) == diag_view(old(out).diagnostics@) + error_diags(
            line_body(input@, pos as int, line_start as int, in_content).0,
        ),
{
    let ghost s = input@;
    let ghost ls = line_start as int;
    let ghost t0 = out.tokens@;
    let ghost d0 = diag_view(out.diagnostics@);
    let mut p = pos;
    if !in_content && p == line_start && at(input, p) == Some(37u8) && line_start_is_column_zero(input, p) {
        let start = p;
        while !at_line_end(input, p)
            invariant
                input@.len() <= u32::MAX,
                start <= p <= input@.len(),
                line_end_from(input@, start as int) == line_end_from(input@, p as int),
            decreases input@.len() - p,
        {
            p = p + 1;
        }
        push_token(out, kind::DIRECTIVE, start, p);
        proof {
            assert(out.tokens@.subrange(0, t0.len() as int) == t0);
            assert(out.tokens@ =~= t0 + seq![tok(kind::DIRECTIVE, start as int, p as int)]);
            lemma_error_diags_one(tok(kind::DIRECTIVE, start as int, p as int));
            assert(d0 + Seq::<(Span, Seq<char>)>::empty() =~= d0);
        }
        return p;
    }
    proof {
        assert(out.tokens@.subrange(0, t0.len() as int) == t0);
        assert(out.tokens@ =~= t0 + Seq::<Token>::empty());
        assert(line_body(s, pos as int, ls, in_content) == body_toks(s, pos as int, ls));
        assert(out.tokens@.subrange(t0.len() as int, out.tokens@.len() as int) =~= Seq::<Token>::empty());
        assert(d0 + Seq::<(Span, Seq<char>)>::empty() =~= d0);
    }
    while !at_line_end(input, p)
        invariant
            s == input@,
            ls == line_start as int,
            pos <= p <= input@.len(),
            input@.len() <= u32::MAX,
            lexing(*out, p as nat),
            out.lines@ == old(out).lines@,
            prefix_of(t0, out.tokens@),
            t0 + body_toks(s, pos as int, ls).0 == out.tokens@ + body_toks(s, p as int, ls).0,
            body_toks(s, pos as int, ls).1 == body_toks(s, p as int, ls).1,
            diag_view(out.diagnostics@) == d0 + error_diags(out.tokens@.subrange(t0.len() as int, out.tokens@.len() as int)),
        decreases input@.len() - p,
    {
        let start = p;
        let ghost tb = out.tokens@;
        let ghost db = diag_view(out.diagnostics@);
        p = lex_step(input, p, out, line_start);
        proof {
            lemma_line_step(s, pos as int, ls, start as int, t0, tb, out.tokens@, d0, db, diag_view(out.diagnostics@));
        }
    }
    proof {
        assert(out.tokens@.subrange(t0.len() as int, out.tokens@.len() as int) =~= body_toks(s, pos as int, ls).0) by {
            assert(body_toks(s, p as int, ls).0 =~= Seq::<Token>::empty());
            assert(out.tokens@ + Seq::<Token>::empty() =~= out.tokens@);
        }
    }
    p
}

/// One step taken in a line body keeps what was lexed and what is to come
/// adding up, and each error token its diagnostic.
proof fn lemma_line_step(s: Seq<u8>, pos: int, ls: int, start: int, t0: Seq<Token>, tb: Seq<Token>, t1: Seq<Token>,
    d0: Seq<(Span, Seq<char>)>, db: Seq<(Span, Seq<char>)>, d1: Seq<(Span, Seq<char>)>)
    requires
        0 <= start,
        !line_end_at(s, start),
        start < body_step(s, start, ls).1 <= s.len(),
        prefix_of(t0, tb),
        t0 + body_toks(s, pos, ls).0 == tb + body_toks(s, start, ls).0,
        body_toks(s, pos, ls).1 == body_toks(s, start, ls).1,
        db == d0 + error_diags(tb.subrange(t0.len() as int, tb.len() as int)),
        t1 == tb + body_step(s, start, ls).0,
        d1 == db + error_diags(body_step(s, start, ls).0),
    ensures
        prefix_of(t0, t1),
        t0 + body_toks(s, pos, ls).0 == t1 + body_toks(s, body_step(s, start, ls).1, ls).0,
        body_toks(s, pos, ls).1 == body_toks(s, body_step(s, start, ls).1, ls).1,
        d1 == d0 + error_diags(t1.subrange(t0.len() as int, t1.len() as int)),
{
    let step = body_step(s, start, ls).0;
    lemma_prefix_push_all(t0, tb, step);
    lemma_body_advance(s, start, ls, t0, tb, body_toks(s, pos, ls).0);
    let mid = tb.subrange(t0.len() as int, tb.len() as int);
    lemma_error_diags_append(mid, step);
    assert(t1.subrange(t0.len() as int, t1.len() as int) =~= mid + step);
    vstd::seq_lib::lemma_concat_associative(d0, error_diags(mid), error_diags(step));
}

/// `t0` stays a prefix when more tokens follow.
proof fn lemma_prefix_push_all(t0: Seq<Token>, tb: Seq<Token>, x: Seq<Token>)
    requires
        prefix_of(t0, tb),
    ensures
        prefix_of(t0, tb + x),
{
    assert((tb + x).subrange(0, t0.len() as int) =~= tb.subrange(0, t0.len() as int));
}

/// One step of a line body: the tokens so far and those still to come
/// after it add up as before.
proof fn lemma_body_advance(s: Seq<u8>, p: int, ls: int, t0: Seq<Token>, tb: Seq<Token>, all: Seq<Token>)
    requires
        0 <= p,
        !line_end_at(s, p),
        p < body_step(s, p, ls).1 <= s.len(),
        t0 + all == tb + body_toks(s, p, ls).0,
    ensures
        t0 + all == (tb + body_step(s, p, ls).0) + body_toks(s, body_step(s, p, ls).1, ls).0,
        body_toks(s, p, ls).1 == body_toks(s, body_step(s, p, ls).1, ls).1,
{
    let (t, e) = body_step(s, p, ls);
    assert(body_toks(s, p, ls).0 == t + body_toks(s, e, ls).0);
    vstd::seq_lib::lemma_concat_associative(tb, t, body_toks(s, e, ls).0);
}

} // verus!

verus! {

/// The kind of the first token of `ts[i..end]` that is not white space, a
/// line break or a comment.
pub open spec fn first_significant(ts: Seq<Token>, i: int, end: int) -> Option<u16>
    decreases end - i,
{
    if i >= end {
        None
    } else {
        let k = ts[i].kind.0;
        if !(k == kind::SPACE || k == kind::INDENT || k == kind::NEWLINE || k == kind::COMMENT) {
            Some(k)
        } else {
            first_significant(ts, i + 1, end)
        }
    }
}

/// The kind of a line's first significant token.
fn significant_kind(tokens: &Vec<Token>, first: usize, end: usize) -> (r: Option<u16>)
    requires
        first <= end <= tokens@.len(),
    ensures
        r == first_significant(tokens@, first as int, end as int),
{
    let mut i = first;
    while i < end
        invariant
            first <= i <= end,
            end <= tokens@.len(),
            first_significant(tokens@, first as int, end as int) == first_significant(tokens@, i as int, end as int),
        decreases end - i,
    {
        let k = tokens[i].kind.0;
        if !(k == kind::SPACE || k == kind::INDENT || k == kind::NEWLINE || k == kind::COMMENT) {
            return Some(k);
        }
        i = i + 1;
    }
    None
}

/// The line terminator at `pos`, if any: `\r\n`, `\r` or `\n` becomes a
/// `NEWLINE` token; any other byte becomes a one-byte `PLAIN` token so that the
/// lexer always advances.
fn lex_terminator(input: &[u8], pos: usize, out: &mut Lexed) -> (r: usize)
    requires
        pos <= input@.len() <= u32::MAX,
        lexing(*old(out), pos as nat),
    ensures
        pos <= r <= input@.len(),
        pos < input@.len() ==> pos < r,
        lexing(*final(out), r as nat),
        final(out).lines@ == old(out).lines@,
        prefix_of(old(out).tokens@, final(out).tokens@),
        final(out).tokens@ == old(out).tokens@ + terminator(input@, pos as int).0,
        final(out).diagnostics@ == old(out).diagnostics@,
        r as int == terminator(input@, pos as int).1,
{
    let ghost tb = out.tokens@;
    proof {
        assert(tb.subrange(0, tb.len() as int) == tb);
    }
    if pos >= input.len() {
        proof {
            assert(out.tokens@ =~= tb + Seq::<Token>::empty());
        }
        return pos;
    }
    let start = pos;
    let mut pos = pos;
    if at(input, pos) == Some(13u8) {
        pos = pos + 1;
    }
    if at(input, pos) == Some(10u8) {
        pos = pos + 1;
    }
    if pos == start {
        pos = pos + 1;
        push_token(out, kind::PLAIN, start, pos);
    } else {
        push_token(out, kind::NEWLINE, start, pos);
    }
    proof {
        lemma_prefix_push(tb, tb, out.tokens@.last());
        assert(out.tokens@ =~= tb + terminator(input@, start as int).0);
    }
    pos
}

/// Leading spaces and tabs at `pos` become an `INDENT` token; returns where
/// they end and their width in columns.
fn lex_indent(input: &[u8], pos: usize, out: &mut Lexed) -> (r: (usize, u32))
    requires
        pos <= input@.len() <= u32::MAX,
        lexing(*old(out), pos as nat),
    ensures
        pos <= r.0 <= input@.len(),
        r.1 == r.0 - pos,
        lexing(*final(out), r.0 as nat),
        final(out).lines@ == old(out).lines@,
        prefix_of(old(out).tokens@, final(out).tokens@),
        r.0 as int == blanks_end(input@, pos as int),
        final(out).diagnostics@ == old(out).diagnostics@,
        final(out).tokens@ == old(out).tokens@ + if r.0 > pos { seq![tok(kind::INDENT, pos as int, r.0 as int)] } else { Seq::<Token>::empty() },
{
    let ghost tb = out.tokens@;
    proof {
        assert(tb.subrange(0, tb.len() as int) == tb);
    }
    let mut p = pos;
    while p < input.len() && (input[p] == 32 || input[p] == 9)
        invariant
            pos <= p <= input@.len(),
            blanks_end(input@, pos as int) == blanks_end(input@, p as int),
        decreases input@.len() - p,
    {
        p = p + 1;
    }
    if p > pos {
        push_token(out, kind::INDENT, pos, p);
        proof {
            lemma_prefix_push(tb, tb, out.tokens@.last());
            assert(out.tokens@ =~= tb + seq![tok(kind::INDENT, pos as int, p as int)]);
        }
    } else {
        proof {
            assert(out.tokens@ =~= tb + Seq::<Token>::empty());
        }
    }
    (p, (p - pos) as u32)
}

/// Record a line span covering the tokens from `first` to the current end.
fn push_line(out: &mut Lexed, indent: u32, first: usize, f0: Ghost<nat>)
    requires
        lines_ok(old(out).lines@, f0@, first as nat),
        first <= old(out).tokens@.len() <= u32::MAX,
    ensures
        lines_ok(final(out).lines@, f0@, final(out).tokens@.len()),
        final(out).tokens@ == old(out).tokens@,
        final(out).diagnostics@ == old(out).diagnostics@,
        final(out).lines@.len() == old(out).lines@.len() + 1,
        final(out).lines@ == old(out).lines@.push(LineSpan { indent, first: first as u32, end: old(out).tokens@.len() as u32 }),
{
    let ghost lb = out.lines@;
    let end = out.tokens.len();
    out.lines.push(LineSpan { indent, first: first as u32, end: end as u32 });
    proof {
        let l = out.lines@;
        assert(l.drop_last() == lb);
        assert forall|j: int| 0 <= j < l.len() implies (#[trigger] l[j]).first <= l[j].end by {
            if j < lb.len() {
                assert(l[j] == lb[j]);
            }
        }
        assert forall|j: int| 0 < j < l.len() implies (#[trigger] l[j]).first == l[j - 1].end by {
            if j < lb.len() {
                assert(l[j] == lb[j]);
            }
            assert(l[j - 1] == lb[j - 1]);
        }
        if lb.len() > 0 {
            assert(l[0] == lb[0]);
        }
    }
}

/// Whether a line that opens a document, closes one, or neither, leaves the
/// lexer inside document content.
fn next_in_content(tokens: &Vec<Token>, first: usize, end: usize, in_content: bool) -> (r: bool)
    requires
        first <= end <= tokens@.len(),
    ensures
        r == match first_significant(tokens@, first as int, end as int) {
            Some(k) => if k == kind::DOC_END { false } else if k != kind::DIRECTIVE { true } else { in_content },
            None => in_content,
        },
{
    match significant_kind(tokens, first, end) {
        Some(k) => {
            if k == kind::DOC_END {
                false
            } else if k != kind::DIRECTIVE {
                true
            } else {
                in_content
            }
        },
        None => in_content,
    }
}

/// Lex one source line starting at `pos`: indentation, body, terminator; and
/// record its span. Returns where the next line starts and the updated
/// "inside a document" state.
#[verifier::rlimit(60)]
#[verifier::spinoff_prover]
fn lex_line(input: &[u8], pos: usize, out: &mut Lexed, in_content: bool, f0: Ghost<nat>) -> (r: (usize, bool))
    requires
        pos < input@.len() <= u32::MAX,
        lexing(*old(out), pos as nat),
        lines_ok(old(out).lines@, f0@, old(out).tokens@.len()),
    ensures
        pos < r.0 <= input@.len(),
        lexing(*final(out), r.0 as nat),
        lines_ok(final(out).lines@, f0@, final(out).tokens@.len()),
        prefix_of(old(out).tokens@, final(out).tokens@),
        final(out).lines@.len() == old(out).lines@.len() + 1,
        ({
            let (lt, q, ind) = one_line(input@, pos as int, in_content);
            &&& final(out).tokens@ == old(out).tokens@ + lt
            &&& r.0 as int == q
            &&& r.1 == content_after(lt, in_content)
            &&& final(out).lines@ == old(out).lines@.push(
                LineSpan { indent: ind, first: old(out).tokens@.len() as u32, end: final(out).tokens@.len() as u32 },
            )
            &&& diag_view(final(out).diagnostics@) == diag_view(old(out).diagnostics@) + error_diags(lt)
        }),
{
    let line_first = out.tokens.len();
    let ghost t_line = out.tokens@;
    let ghost s = input@;
    let ws_start = pos;
    let (p1, indent_cols) = lex_indent(input, pos, out);
    let neutral = at_line_end(input, p1) || at(input, p1) == Some(35u8);
    let ghost t_mid = out.tokens@;
    let p2 = lex_line_body(input, p1, out, ws_start, in_content);
    let ghost t_body = out.tokens@;
    let p3 = lex_terminator(input, p2, out);
    let ghost ind = if p1 > ws_start { seq![tok(kind::INDENT, ws_start as int, p1 as int)] } else { Seq::<Token>::empty() };
    let ghost bt = line_body(s, p1 as int, ws_start as int, in_content).0;
    let ghost tt = terminator(s, p2 as int).0;
    proof {
        lemma_prefix_trans(t_line, t_mid, t_body);
        lemma_prefix_trans(t_line, t_body, out.tokens@);
        lemma_tiles_len(out.tokens@, p3 as nat);
        assert(t_mid == t_line + ind);
        assert(t_body == t_mid + bt);
        assert(out.tokens@ == t_body + tt);
        vstd::seq_lib::lemma_concat_associative(t_line, ind, bt);
        vstd::seq_lib::lemma_concat_associative(t_line, ind + bt, tt);
        assert(out.tokens@ == t_line + (ind + bt + tt));
        lemma_one_line(s, ws_start as int, in_content, p1 as int, p2 as int);
        if p1 > ws_start {
            lemma_error_diags_one(tok(kind::INDENT, ws_start as int, p1 as int));
        } else {
            assert(error_diags(ind) =~= Seq::<(Span, Seq<char>)>::empty());
        }
        if p2 < input@.len() {
            lemma_error_diags_one(tt[0]);
            assert(tt =~= seq![tt[0]]);
        } else {
            assert(error_diags(tt) =~= Seq::<(Span, Seq<char>)>::empty());
        }
        lemma_error_diags_append(ind, bt);
        lemma_error_diags_append(ind + bt, tt);
        assert(error_diags(ind + bt + tt) =~= error_diags(bt));
    }
    let end = out.tokens.len();
    let next = next_in_content(&out.tokens, line_first, end, in_content);
    proof {
        lemma_first_significant_suffix(t_line, ind + bt + tt);
    }
    push_line(out, if neutral { 4294967295u32 } else { indent_cols }, line_first, f0);
    (p3, next)
}

/// One more line lexed: what is done and what is to come add up as before.
proof fn lemma_lines_step(s: Seq<u8>, p0: int, c0: bool, t0: Seq<Token>, l0: Seq<LineSpan>, t1: Seq<Token>, l1: Seq<LineSpan>)
    requires
        0 <= p0 < one_line(s, p0, c0).1 <= s.len(),
        t1 == t0 + one_line(s, p0, c0).0,
        l1 == l0.push(LineSpan { indent: one_line(s, p0, c0).2, first: t0.len() as u32, end: t1.len() as u32 }),
    ensures
        t1 + lines_from(s, one_line(s, p0, c0).1, content_after(one_line(s, p0, c0).0, c0), t1.len()).0 == t0 + lines_from(s, p0, c0, t0.len()).0,
        l1 + lines_from(s, one_line(s, p0, c0).1, content_after(one_line(s, p0, c0).0, c0), t1.len()).1 == l0 + lines_from(s, p0, c0, t0.len()).1,
{
    let (lt, q, ind) = one_line(s, p0, c0);
    let (rt, rl) = lines_from(s, q, content_after(lt, c0), t0.len() + lt.len());
    let l = LineSpan { indent: ind, first: t0.len() as u32, end: (t0.len() + lt.len()) as u32 };
    assert(lines_from(s, p0, c0, t0.len()) == (lt + rt, seq![l] + rl));
    vstd::seq_lib::lemma_concat_associative(t0, lt, rt);
    assert(l0 + (seq![l] + rl) =~= l1 + rl);
}

/// A line's parts make the line.
proof fn lemma_one_line(s: Seq<u8>, pos: int, in_content: bool, p1: int, p2: int)
    requires
        p1 == blanks_end(s, pos),
        p2 == line_body(s, p1, pos, in_content).1,
    ensures
        ({
            let ind = if p1 > pos { seq![tok(kind::INDENT, pos, p1)] } else { Seq::<Token>::empty() };
            let neutral = line_end_at(s, p1) || byte_at(s, p1) == Some(35u8);
            one_line(s, pos, in_content) == (ind + line_body(s, p1, pos, in_content).0 + terminator(s, p2).0, terminator(s, p2).1,
                if neutral { u32::MAX } else { (p1 - pos) as u32 })
        }),
{
}

/// The first significant token of the tokens after `a` is that of the
/// tokens after `a`, counted from their own start.
proof fn lemma_first_significant_suffix(a: Seq<Token>, b: Seq<Token>)
    ensures
        first_significant(a + b, a.len() as int, (a.len() + b.len()) as int) == first_significant(b, 0, b.len() as int),
{
    lemma_first_significant_from(a, b, 0);
}

proof fn lemma_first_significant_from(a: Seq<Token>, b: Seq<Token>, i: int)
    requires
        0 <= i <= b.len(),
    ensures
        first_significant(a + b, a.len() + i, (a.len() + b.len()) as int) == first_significant(b, i, b.len() as int),
    decreases b.len() - i,
{
    if i < b.len() {
        assert((a + b)[a.len() + i] == b[i]);
        lemma_first_significant_from(a, b, i + 1);
    }
}

/// Tokenize `input`. Total: the tokens cover every byte, in order, and the
/// lines partition the tokens.
pub fn lex(input: &[u8]) -> (out: Lexed)
    requires
        input@.len() <= u32::MAX,
    ensures
        out.wf(input@),
        out.tokens@ == yaml_tokens(input@),
        out.lines@ == yaml_lines(input@),
        diag_view(out.diagnostics@) == error_diags(out.tokens@),
        out.diagnostics@.len() == error_count(out.tokens@),
        (out.diagnostics@.len() == 0) == (error_count(out.tokens@) == 0),
{
    let mut out = Lexed { tokens: Vec::new(), lines: Vec::new(), diagnostics: Vec::new() };
    let mut pos: usize = 0;
    let mut in_content = false;
    let ghost s = input@;
    if input.len() >= 3 && input[0] == 0xef && input[1] == 0xbb && input[2] == 0xbf {
        push_token(&mut out, kind::BOM, 0, 3);
        pos = 3;
    }
    let ghost f0: nat = if has_bom(s) { 1 } else { 0 };
    proof {
        assert(out.tokens@.len() == f0);
        assert(out.lines@.len() == 0);
        if has_bom(s) {
            assert(out.tokens@ =~= seq![tok(kind::BOM, 0, 3)]);
        } else {
            assert(out.tokens@ =~= Seq::<Token>::empty());
        }
        assert(out.lines@ =~= Seq::<LineSpan>::empty());
        assert(out.tokens@ + lines_from(s, pos as int, in_content, out.tokens@.len()).0 == yaml_tokens(s));
        assert(out.lines@ + lines_from(s, pos as int, in_content, out.tokens@.len()).1 == yaml_lines(s));
        if has_bom(s) {
            lemma_error_diags_one(tok(kind::BOM, 0, 3));
        }
        assert(diag_view(out.diagnostics@) =~= error_diags(out.tokens@));
    }
    while pos < input.len()
        invariant
            s == input@,
            s.len() <= u32::MAX,
            pos <= s.len(),
            out.lines@.len() <= pos,
            lexing(out, pos as nat),
            lines_ok(out.lines@, f0, out.tokens@.len()),
            f0 == (if has_bom(s) { 1nat } else { 0nat }),
            out.tokens@.len() >= f0,
            has_bom(s) ==> out.tokens@[0].kind.0 == kind::BOM,
            out.tokens@ + lines_from(s, pos as int, in_content, out.tokens@.len()).0 == yaml_tokens(s),
            out.lines@ + lines_from(s, pos as int, in_content, out.tokens@.len()).1 == yaml_lines(s),
            diag_view(out.diagnostics@) == error_diags(out.tokens@),
        decreases s.len() - pos,
    {
        let ghost t0 = out.tokens@;
        let ghost l0 = out.lines@;
        let ghost p0 = pos as int;
        let ghost c0 = in_content;
        let r = lex_line(input, pos, &mut out, in_content, Ghost(f0));
        pos = r.0;
        in_content = r.1;
        proof {
            if has_bom(s) {
                assert(out.tokens@[0] == t0[0]);
            }
            lemma_lines_step(s, p0, c0, t0, l0, out.tokens@, out.lines@);
            lemma_error_diags_append(t0, one_line(s, p0, c0).0);
        }
    }
    proof {
        assert(out.tokens@ + Seq::<Token>::empty() =~= out.tokens@);
        assert(out.lines@ + Seq::<LineSpan>::empty() =~= out.lines@);
    }
    proof {
        lemma_error_count_zero(out.tokens@);
    }
    out
}

proof fn lemma_error_count_zero(ts: Seq<Token>)
    ensures
        error_count(ts) == 0 <==> forall|i: int| 0 <= i < ts.len() ==> (#[trigger] ts[i]).kind.0 != kind::ERROR,
    decreases ts.len(),
{
    if ts.len() > 0 {
        let t = ts.drop_last();
        lemma_error_count_zero(t);
        if error_count(ts) == 0 {
            assert forall|i: int| 0 <= i < ts.len() implies (#[trigger] ts[i]).kind.0 != kind::ERROR by {
                if i < t.len() {
                    assert(t[i] == ts[i]);
                }
            }
        } else {
            if error_count(t) != 0 {
                let i = choose|i: int| 0 <= i < t.len() && (#[trigger] t[i]).kind.0 == kind::ERROR;
                assert(ts[i] == t[i]);
            } else {
                assert(ts[ts.len() - 1].kind.0 == kind::ERROR);
            }
        }
    }
}

} // verus!

verus! {

// --- nesting ------------------------------------------------------------------

/// The last line before `k` whose indent is less than `d`, or `-1`.
pub open spec fn shallower_before(ls: Seq<LineSpan>, d: u32, k: int) -> int
    decreases k,
{
    if k <= 0 {
        -1
    } else if ls[k - 1].indent < d {
        k - 1
    } else {
        shallower_before(ls, d, k - 1)
    }
}

/// The parent of line `j`: the nearest earlier line indented less deeply.
/// A neutral line (indent `u32::MAX`) thus hangs under the last non-neutral
/// line before it, and neutral lines never become parents.
pub open spec fn parent_of(ls: Seq<LineSpan>, j: int) -> int {
    shallower_before(ls, ls[j].indent, j)
}

/// [`parent_of`] as stored: a line index, or `u32::MAX` for the document root.
pub open spec fn parent_code(ls: Seq<LineSpan>, j: int) -> u32 {
    if parent_of(ls, j) < 0 { u32::MAX } else { parent_of(ls, j) as u32 }
}

proof fn lemma_shallower_before(ls: Seq<LineSpan>, d: u32, k: int)
    requires
        0 <= k <= ls.len(),
    ensures
        -1 <= shallower_before(ls, d, k) < k,
        shallower_before(ls, d, k) >= 0 ==> ls[shallower_before(ls, d, k)].indent < d,
        forall|i: int| shallower_before(ls, d, k) < i < k ==> (#[trigger] ls[i]).indent >= d,
    decreases k,
{
    if k > 0 && ls[k - 1].indent >= d {
        lemma_shallower_before(ls, d, k - 1);
    }
}

/// Lines from `a` to `b` that are all at least `e` deep are skipped alike by
/// every search for a line shallower than `d <= e`.
proof fn lemma_shallower_skip(ls: Seq<LineSpan>, d: u32, e: u32, a: int, b: int)
    requires
        0 <= a <= b <= ls.len(),
        d <= e,
        forall|i: int| a <= i < b ==> (#[trigger] ls[i]).indent >= e,
    ensures
        shallower_before(ls, d, b) == shallower_before(ls, d, a),
    decreases b - a,
{
    if b > a {
        assert(ls[b - 1].indent >= e);
        lemma_shallower_skip(ls, d, e, a, b - 1);
    }
}

/// The lines from `k` on whose parent comes before line `j` (or who have
/// none), in order: those still open once lines `j..` are built.
pub open spec fn open_lines(ls: Seq<LineSpan>, j: int, k: int) -> Seq<int>
    decreases ls.len() - k,
{
    if k < 0 || k >= ls.len() {
        Seq::empty()
    } else if parent_of(ls, k) < j {
        seq![k] + open_lines(ls, j, k + 1)
    } else {
        open_lines(ls, j, k + 1)
    }
}

/// The lines from `k` on whose parent is line `j`, in order.
pub open spec fn child_lines(ls: Seq<LineSpan>, j: int, k: int) -> Seq<int>
    decreases ls.len() - k,
{
    if k < 0 || k >= ls.len() {
        Seq::empty()
    } else if parent_of(ls, k) == j {
        seq![k] + child_lines(ls, j, k + 1)
    } else {
        child_lines(ls, j, k + 1)
    }
}

/// The lines nested directly under line `j`, in order.
pub open spec fn line_kids(ls: Seq<LineSpan>, j: int) -> Seq<int> {
    child_lines(ls, j, j + 1)
}

/// The lines nested under no other line, in order.
pub open spec fn root_lines(ls: Seq<LineSpan>) -> Seq<int> {
    open_lines(ls, 0, 0)
}

/// Whether `node` is the tree of line `j`: a `LINE` node holding the line's
/// tokens and then, in order, the trees of the lines nested directly under it.
pub open spec fn line_tree(s: Seq<u8>, ts: Seq<Token>, ls: Seq<LineSpan>, node: GreenNode, j: int) -> bool
    decreases ls.len() - j,
{
    let nt = ls[j].end - ls[j].first;
    let ks = line_kids(ls, j);
    let kids = node.kids();
    &&& 0 <= j < ls.len()
    &&& node.kind_of() == SyntaxKind(kind::LINE)
    &&& kids.len() == nt + ks.len()
    &&& forall|i: int| 0 <= i < nt ==> (#[trigger] kids[i]) is Token
    &&& seq_leaves(kids.take(nt)) == range_leaves(s, ts, ls[j].first as int, ls[j].end as int)
    &&& forall|m: int| 0 <= m < ks.len() ==> j < #[trigger] ks[m] < ls.len() && kids[nt + m] is Node
        && line_tree(s, ts, ls, node_of(kids[nt + m]), ks[m])
}

/// Whether `root` is the tree YAML builds for `s`: a `STREAM` node holding
/// the BOM token when `s` has one, then, in order, the trees of the lines
/// nested under no other line.
pub open spec fn yaml_tree(s: Seq<u8>, ts: Seq<Token>, ls: Seq<LineSpan>, root: GreenNode) -> bool {
    let b: int = if has_bom(s) { 1 } else { 0 };
    let rs = root_lines(ls);
    let kids = root.kids();
    &&& root.kind_of() == SyntaxKind(kind::STREAM)
    &&& kids.len() == b + rs.len()
    &&& b == 1 ==> kids[0] is Token && child_leaves(kids[0]) == seq![token_leaf(s, ts[0])]
    &&& forall|m: int| 0 <= m < rs.len() ==> 0 <= #[trigger] rs[m] < ls.len() && kids[b + m] is Node
        && line_tree(s, ts, ls, node_of(kids[b + m]), rs[m])
}

/// The parent of a line comes before it.
proof fn lemma_parent_before(ls: Seq<LineSpan>, k: int)
    requires
        0 <= k < ls.len(),
    ensures
        -1 <= parent_of(ls, k) < k,
{
    lemma_shallower_before(ls, ls[k].indent, k);
}

/// Open lines lie from `k` on, before the end, and have their parent before `j`.
proof fn lemma_open_lines(ls: Seq<LineSpan>, j: int, k: int)
    requires
        0 <= k,
    ensures
        forall|m: int| 0 <= m < open_lines(ls, j, k).len() ==> k <= #[trigger] open_lines(ls, j, k)[m] < ls.len()
            && parent_of(ls, open_lines(ls, j, k)[m]) < j,
        forall|m: int, m2: int| 0 <= m < m2 < open_lines(ls, j, k).len() ==> #[trigger] open_lines(ls, j, k)[m] < #[trigger] open_lines(ls, j, k)[m2],
    decreases ls.len() - k,
{
    if k < ls.len() {
        lemma_open_lines(ls, j, k + 1);
        let t = open_lines(ls, j, k + 1);
        if parent_of(ls, k) < j {
            assert forall|m: int| 0 <= m < open_lines(ls, j, k).len() implies k <= #[trigger] open_lines(ls, j, k)[m] < ls.len()
                && parent_of(ls, open_lines(ls, j, k)[m]) < j by {
                if m > 0 {
                    assert(open_lines(ls, j, k)[m] == t[m - 1]);
                }
            }
            assert forall|m: int, m2: int| 0 <= m < m2 < open_lines(ls, j, k).len() implies #[trigger] open_lines(ls, j, k)[m] < #[trigger] open_lines(ls, j, k)[m2] by {
                assert(open_lines(ls, j, k)[m2] == t[m2 - 1]);
                if m > 0 {
                    assert(open_lines(ls, j, k)[m] == t[m - 1]);
                }
            }
        }
    }
}

/// Child lines lie from `k` on, before the end, and have `j` as their parent.
proof fn lemma_child_lines(ls: Seq<LineSpan>, j: int, k: int)
    requires
        0 <= k,
    ensures
        forall|m: int| 0 <= m < child_lines(ls, j, k).len() ==> k <= #[trigger] child_lines(ls, j, k)[m] < ls.len()
            && parent_of(ls, child_lines(ls, j, k)[m]) == j,
    decreases ls.len() - k,
{
    if k < ls.len() {
        lemma_child_lines(ls, j, k + 1);
        let t = child_lines(ls, j, k + 1);
        if parent_of(ls, k) == j {
            assert forall|m: int| 0 <= m < child_lines(ls, j, k).len() implies k <= #[trigger] child_lines(ls, j, k)[m] < ls.len()
                && parent_of(ls, child_lines(ls, j, k)[m]) == j by {
                if m > 0 {
                    assert(child_lines(ls, j, k)[m] == t[m - 1]);
                }
            }
        }
    }
}

/// A search for a line shallower than `d` finds `i` or a later line when
/// line `i` is shallower than `d`.
proof fn lemma_shallower_at_least(ls: Seq<LineSpan>, d: u32, k: int, i: int)
    requires
        0 <= i < k <= ls.len(),
        ls[i].indent < d,
    ensures
        shallower_before(ls, d, k) >= i,
{
    lemma_shallower_before(ls, d, k);
    if shallower_before(ls, d, k) < i {
        assert(ls[i].indent >= d);
    }
}

/// Nesting is laminar: between a line `j` and a line `m` nested directly under
/// it, every line whose parent is no later than `j` has `j` as its parent.
proof fn lemma_laminar(ls: Seq<LineSpan>, j: int, k: int, m: int)
    requires
        0 <= j < k < m < ls.len(),
        parent_of(ls, m) == j,
        parent_of(ls, k) <= j,
    ensures
        parent_of(ls, k) == j,
{
    lemma_shallower_before(ls, ls[m].indent, m);
    assert(ls[k].indent >= ls[m].indent);
    assert(ls[j].indent < ls[k].indent);
    lemma_shallower_at_least(ls, ls[k].indent, k, j);
}

/// No line from `k` on has parent `j`: no child lines from there.
proof fn lemma_no_child_lines(ls: Seq<LineSpan>, j: int, k: int)
    requires
        0 <= k,
        forall|m: int| k <= m < ls.len() ==> parent_of(ls, m) != j,
    ensures
        child_lines(ls, j, k) == Seq::<int>::empty(),
    decreases ls.len() - k,
{
    if k < ls.len() {
        lemma_no_child_lines(ls, j, k + 1);
    }
}

/// Once line `j` is built, the lines open before it split into its children,
/// first, and the lines still open after it.
proof fn lemma_open_split(ls: Seq<LineSpan>, j: int, k: int)
    requires
        0 <= j < k,
    ensures
        open_lines(ls, j + 1, k) == child_lines(ls, j, k) + open_lines(ls, j, k),
    decreases ls.len() - k,
{
    if k < ls.len() {
        lemma_open_split(ls, j, k + 1);
        if parent_of(ls, k) < j {
            assert forall|m: int| k + 1 <= m < ls.len() implies parent_of(ls, m) != j by {
                if parent_of(ls, m) == j {
                    lemma_laminar(ls, j, k, m);
                }
            }
            lemma_no_child_lines(ls, j, k + 1);
            assert(open_lines(ls, j + 1, k) =~= child_lines(ls, j, k) + open_lines(ls, j, k));
        } else if parent_of(ls, k) == j {
            assert(open_lines(ls, j + 1, k) =~= child_lines(ls, j, k) + open_lines(ls, j, k));
        }
    }
}

/// Whether the stack `p` (top last) holds, top first, the trees of the lines
/// `o`, each with its parent's code.
pub open spec fn stack_holds(s: Seq<u8>, ts: Seq<Token>, ls: Seq<LineSpan>, p: Seq<(u32, GreenChild)>, o: Seq<int>) -> bool {
    &&& p.len() == o.len()
    &&& forall|i: int| 0 <= i < o.len() ==> {
        let e = #[trigger] p[p.len() - 1 - i];
        &&& e.0 == parent_code(ls, o[i])
        &&& e.1 is Node
        &&& line_tree(s, ts, ls, node_of(e.1), o[i])
    }
}

/// Parent line index for each line (`u32::MAX` = the document root).
pub fn nesting(lines: &Vec<LineSpan>) -> (parents: Vec<u32>)
    requires
        lines@.len() <= u32::MAX,
    ensures
        parents@.len() == lines@.len(),
        forall|j: int| 0 <= j < lines@.len() ==> parents@[j] == #[trigger] parent_code(lines@, j),
{
    let ghost ls = lines@;
    let mut parents: Vec<u32> = Vec::new();
    let mut j: usize = 0;
    while j < lines.len()
        invariant
            ls == lines@,
            ls.len() <= u32::MAX,
            j <= ls.len(),
            parents@.len() == j,
            forall|m: int| 0 <= m < j ==> parents@[m] == #[trigger] parent_code(ls, m),
        decreases ls.len() - j,
    {
        let d = lines[j].indent;
        let mut k: usize = j;
        let result: u32;
        loop
            invariant
                ls == lines@,
                ls.len() <= u32::MAX,
                j < ls.len(),
                d == ls[j as int].indent,
                k <= j,
                parents@.len() == j,
                forall|m: int| 0 <= m < j ==> parents@[m] == #[trigger] parent_code(ls, m),
                shallower_before(ls, d, j as int) == shallower_before(ls, d, k as int),
            ensures
                result == parent_code(ls, j as int),
            decreases k,
        {
            if k == 0 {
                result = 4294967295u32;
                break;
            }
            let m = k - 1;
            if lines[m].indent < d {
                result = m as u32;
                break;
            }
            let p = parents[m];
            proof {
                assert(parents@[m as int] == parent_code(ls, m as int));
                lemma_shallower_before(ls, ls[m as int].indent, m as int);
                let q = parent_of(ls, m as int);
                lemma_shallower_skip(ls, d, ls[m as int].indent, q + 1, m as int);
            }
            if p == 4294967295u32 {
                result = 4294967295u32;
                break;
            }
            k = p as usize + 1;
        }
        parents.push(result);
        proof {
            assert forall|m: int| 0 <= m < j + 1 implies parents@[m] == #[trigger] parent_code(ls, m) by {
                if m < j {
                    assert(parents@[m] == parents@.drop_last()[m]);
                }
            }
        }
        j = j + 1;
    }
    parents
}

} // verus!

verus! {

// --- the tree -----------------------------------------------------------------

/// The text of a stack of finished lines, top (last) first.
pub open spec fn pending_text(p: Seq<(u32, GreenChild)>) -> Seq<u8>
    decreases p.len(),
{
    if p.len() == 0 {
        Seq::empty()
    } else {
        child_text(p.last().1) + pending_text(p.drop_last())
    }
}

/// The tokens of a stack of finished lines, top (last) first.
pub open spec fn pending_leaves(p: Seq<(u32, GreenChild)>) -> Seq<(SyntaxKind, Seq<u8>)>
    decreases p.len(),
{
    if p.len() == 0 {
        Seq::empty()
    } else {
        child_leaves(p.last().1) + pending_leaves(p.drop_last())
    }
}

/// A lexer token as a tree token: its kind and the bytes it covers.
pub open spec fn token_leaf(s: Seq<u8>, t: Token) -> (SyntaxKind, Seq<u8>) {
    (t.kind, token_bytes(s, t))
}

/// The lexer tokens `ts` as tree tokens.
pub open spec fn tokens_leaves(s: Seq<u8>, ts: Seq<Token>) -> Seq<(SyntaxKind, Seq<u8>)> {
    Seq::new(ts.len(), |i: int| token_leaf(s, ts[i]))
}

/// The tokens from index `a` to `b`, as tree tokens.
pub open spec fn range_leaves(s: Seq<u8>, ts: Seq<Token>, a: int, b: int) -> Seq<(SyntaxKind, Seq<u8>)> {
    tokens_leaves(s, ts.subrange(a, b))
}

proof fn lemma_range_leaves_split(s: Seq<u8>, ts: Seq<Token>, a: int, m: int, b: int)
    requires
        0 <= a <= m <= b <= ts.len(),
    ensures
        range_leaves(s, ts, a, b) == range_leaves(s, ts, a, m) + range_leaves(s, ts, m, b),
{
    assert(range_leaves(s, ts, a, b) =~= range_leaves(s, ts, a, m) + range_leaves(s, ts, m, b));
}

/// Whether every finished line on the stack reports its true length.
pub open spec fn pending_faithful(p: Seq<(u32, GreenChild)>) -> bool {
    forall|i: int| 0 <= i < p.len() ==> #[trigger] faithful(p[i].1)
}

/// A token child holding a token's bytes.
fn token_child(input: &[u8], t: Token) -> (c: GreenChild)
    requires
        input@.len() <= u32::MAX,
    ensures
        child_text(c) == token_bytes(input@, t),
        child_leaves(c) == seq![token_leaf(input@, t)],
        faithful(c),
        c is Token,
{
    let a = t.span.start as usize;
    let b = t.span.end as usize;
    let bytes: &[u8] = if a <= b && b <= input.len() { &input[a..b] } else { &input[0..0] };
    GreenChild::Token(std::rc::Rc::new(GreenToken::new(t.kind, bytes)))
}

proof fn lemma_push_child(s: Seq<GreenChild>, c: GreenChild)
    requires
        all_faithful(s),
        faithful(c),
    ensures
        all_faithful(s.push(c)),
        seq_text(s.push(c)) == seq_text(s) + child_text(c),
        seq_leaves(s.push(c)) == seq_leaves(s) + child_leaves(c),
{
    assert forall|i: int| 0 <= i < s.push(c).len() implies #[trigger] faithful(s.push(c)[i]) by {
        if i < s.len() {
            assert(s.push(c)[i] == s[i]);
        }
    }
    assert(s.push(c).drop_last() == s);
}

/// The bytes of the tokens from index `a` to `b`.
pub open spec fn range_text(s: Seq<u8>, ts: Seq<Token>, a: int, b: int) -> Seq<u8> {
    tokens_text(s, ts.subrange(a, b))
}

proof fn lemma_range_split(s: Seq<u8>, ts: Seq<Token>, a: int, m: int, b: int)
    requires
        0 <= a <= m <= b <= ts.len(),
    ensures
        range_text(s, ts, a, b) == range_text(s, ts, a, m) + range_text(s, ts, m, b),
{
    assert(ts.subrange(a, b) == ts.subrange(a, m) + ts.subrange(m, b));
    lemma_tokens_text_append(s, ts.subrange(a, m), ts.subrange(m, b));
}

proof fn lemma_range_one(s: Seq<u8>, ts: Seq<Token>, a: int)
    requires
        0 <= a < ts.len(),
    ensures
        range_text(s, ts, a, a + 1) == token_bytes(s, ts[a]),
{
    let u = ts.subrange(a, a + 1);
    assert(u.drop_last() == Seq::<Token>::empty());
    assert(tokens_text(s, Seq::<Token>::empty()) == Seq::<u8>::empty());
    assert(Seq::<u8>::empty() + token_bytes(s, ts[a]) == token_bytes(s, ts[a]));
}

/// The tokens of one line, as children.
fn line_tokens(input: &[u8], tokens: &Vec<Token>, first: usize, end: usize) -> (children: Vec<GreenChild>)
    requires
        first <= end <= tokens@.len(),
        input@.len() <= u32::MAX,
    ensures
        all_faithful(children@),
        seq_text(children@) == range_text(input@, tokens@, first as int, end as int),
        seq_leaves(children@) == range_leaves(input@, tokens@, first as int, end as int),
        children@.len() == end - first,
        forall|i: int| 0 <= i < children@.len() ==> (#[trigger] children@[i]) is Token,
{
    let mut children: Vec<GreenChild> = Vec::new();
    let mut i = first;
    proof {
        assert(tokens@.subrange(first as int, first as int) == Seq::<Token>::empty());
    }
    while i < end
        invariant
            first <= i <= end <= tokens@.len(),
            input@.len() <= u32::MAX,
            all_faithful(children@),
            seq_text(children@) == range_text(input@, tokens@, first as int, i as int),
            seq_leaves(children@) == range_leaves(input@, tokens@, first as int, i as int),
            children@.len() == i - first,
            forall|k: int| 0 <= k < children@.len() ==> (#[trigger] children@[k]) is Token,
        decreases end - i,
    {
        let c = token_child(input, tokens[i]);
        proof {
            lemma_push_child(children@, c);
            lemma_range_split(input@, tokens@, first as int, i as int, i + 1);
            lemma_range_one(input@, tokens@, i as int);
            lemma_range_leaves_split(input@, tokens@, first as int, i as int, i + 1);
            assert(range_leaves(input@, tokens@, i as int, i + 1) =~= seq![token_leaf(input@, tokens@[i as int])]);
        }
        children.push(c);
        i = i + 1;
    }
    children
}

proof fn lemma_pending_pop(p: Seq<(u32, GreenChild)>)
    requires
        p.len() > 0,
        pending_faithful(p),
    ensures
        pending_text(p) == child_text(p.last().1) + pending_text(p.drop_last()),
        pending_leaves(p) == child_leaves(p.last().1) + pending_leaves(p.drop_last()),
        pending_faithful(p.drop_last()),
        faithful(p.last().1),
{
    assert(faithful(p[p.len() - 1].1));
    assert forall|i: int| 0 <= i < p.drop_last().len() implies #[trigger] faithful(p.drop_last()[i].1) by {
        assert(p.drop_last()[i] == p[i]);
    }
}

proof fn lemma_pending_push(p: Seq<(u32, GreenChild)>, e: (u32, GreenChild))
    requires
        pending_faithful(p),
        faithful(e.1),
    ensures
        pending_text(p.push(e)) == child_text(e.1) + pending_text(p),
        pending_leaves(p.push(e)) == child_leaves(e.1) + pending_leaves(p),
        pending_faithful(p.push(e)),
{
    assert(p.push(e).drop_last() == p);
    assert forall|i: int| 0 <= i < p.push(e).len() implies #[trigger] faithful(p.push(e)[i].1) by {
        if i < p.len() {
            assert(p.push(e)[i] == p[i]);
        }
    }
}

/// Build the tree for line `j`: its tokens, then the finished lines nested
/// under it, which sit on top of `pending` in source order.
fn build_line(input: &[u8], lexed: &Lexed, parents: &Vec<u32>, j: usize, pending: &mut Vec<(u32, GreenChild)>)
    requires
        j < lexed.lines@.len(),
        lexed.lines@.len() <= u32::MAX,
        lexed.lines@[j as int].first <= lexed.lines@[j as int].end <= lexed.tokens@.len(),
        input@.len() <= u32::MAX,
        pending_faithful(old(pending)@),
        range_text(input@, lexed.tokens@, lexed.lines@[j as int].first as int, lexed.lines@[j as int].end as int).len()
            + pending_text(old(pending)@).len() <= u32::MAX,
        parents@.len() == lexed.lines@.len(),
        forall|m: int| 0 <= m < lexed.lines@.len() ==> parents@[m] == #[trigger] parent_code(lexed.lines@, m),
        stack_holds(input@, lexed.tokens@, lexed.lines@, old(pending)@, open_lines(lexed.lines@, j + 1, j + 1)),
    ensures
        pending_faithful(final(pending)@),
        pending_text(final(pending)@) == range_text(input@, lexed.tokens@, lexed.lines@[j as int].first as int, lexed.lines@[j as int].end as int)
            + pending_text(old(pending)@),
        pending_leaves(final(pending)@) == range_leaves(input@, lexed.tokens@, lexed.lines@[j as int].first as int, lexed.lines@[j as int].end as int)
            + pending_leaves(old(pending)@),
        stack_holds(input@, lexed.tokens@, lexed.lines@, final(pending)@, open_lines(lexed.lines@, j as int, j as int)),
{
    let line = lexed.lines[j];
    let ghost s = input@;
    let ghost ts = lexed.tokens@;
    let ghost ls = lexed.lines@;
    let ghost own = range_text(input@, lexed.tokens@, line.first as int, line.end as int);
    let ghost p0 = pending_text(pending@);
    let ghost own_leaves = range_leaves(input@, lexed.tokens@, line.first as int, line.end as int);
    let ghost q0 = pending_leaves(pending@);
    let ghost big = pending@;
    let ghost n0 = pending@.len();
    let ghost ks = line_kids(ls, j as int);
    let ghost rest = open_lines(ls, j as int, j + 1);
    proof {
        lemma_open_split(ls, j as int, j + 1);
        lemma_child_lines(ls, j as int, j + 1);
        lemma_open_lines(ls, j as int, j + 1);
        assert(open_lines(ls, j + 1, j + 1) == ks + rest);
    }
    let mut children = line_tokens(input, &lexed.tokens, line.first as usize, line.end as usize);
    let ghost toks = children@;
    let ghost nt = children@.len();
    while pending.len() > 0 && pending[pending.len() - 1].0 as usize == j
        invariant
            pending_faithful(pending@),
            all_faithful(children@),
            seq_text(children@) + pending_text(pending@) == own + p0,
            seq_leaves(children@) + pending_leaves(pending@) == own_leaves + q0,
            nt <= children@.len() <= nt + ks.len(),
            children@.take(nt as int) == toks,
            pending@ == big.take(n0 - (children@.len() - nt)),
            forall|m: int| 0 <= m < children@.len() - nt ==> #[trigger] children@[nt + m] == big[n0 - 1 - m].1,
            stack_holds(s, ts, ls, big, ks + rest),
            n0 == big.len(),
            j < ls.len() <= u32::MAX,
            forall|m: int| 0 <= m < rest.len() ==> parent_of(ls, #[trigger] rest[m]) < j,
            forall|m: int| 0 <= m < ks.len() ==> parent_of(ls, #[trigger] ks[m]) == j,
        decreases pending@.len(),
    {
        let ghost before = pending@;
        let ghost c = children@.len() - nt;
        proof {
            let o = ks + rest;
            assert(big[n0 - 1 - c] == before.last());
            if c >= ks.len() {
                assert(o[c] == rest[c - ks.len()]);
                assert(parent_of(ls, rest[c - ks.len()]) < j);
                assert(before.last().0 == parent_code(ls, o[c]));
                assert(false);
            }
        }
        let (_, ch) = pending.pop().unwrap();
        proof {
            assert(pending@ == before.drop_last());
            lemma_pending_pop(before);
            lemma_push_child(children@, ch);
            vstd::seq_lib::lemma_concat_associative(seq_text(children@), child_text(ch), pending_text(pending@));
            vstd::seq_lib::lemma_concat_associative(seq_leaves(children@), child_leaves(ch), pending_leaves(pending@));
            assert(pending@ =~= big.take(n0 - (c + 1)));
        }
        children.push(ch);
        proof {
            assert(children@.take(nt as int) =~= toks);
            assert forall|m: int| 0 <= m < children@.len() - nt implies #[trigger] children@[nt + m] == big[n0 - 1 - m].1 by {
                if m < c {
                    assert(children@[nt + m] == children@.drop_last()[nt + m]);
                }
            }
        }
    }
    proof {
        lemma_faithful_sum(children@);
        let c = children@.len() - nt;
        let o = ks + rest;
        if c < ks.len() {
            if pending@.len() > 0 {
                assert(pending@.last() == big[n0 - 1 - c]);
                assert(o[c] == ks[c]);
                assert(parent_of(ls, ks[c]) == j);
            } else {
                assert(n0 == o.len());
            }
            assert(false);
        }
    }
    let node = GreenNode::new(SyntaxKind(kind::LINE), children);
    proof {
        let kids = node.kids();
        assert(kids == children@);
        assert(ls[j as int] == line);
        assert(kids.take(nt as int) == toks);
        assert forall|i: int| 0 <= i < nt implies (#[trigger] kids[i]) is Token by {
            assert(kids[i] == toks[i]);
        }
        assert forall|m: int| 0 <= m < ks.len() implies j < #[trigger] ks[m] < ls.len() && kids[nt + m] is Node
            && line_tree(s, ts, ls, node_of(kids[nt + m]), ks[m]) by {
            let o = ks + rest;
            assert(o[m] == ks[m]);
            assert(kids[nt + m] == big[n0 - 1 - m].1);
            let e = big[big.len() - 1 - m];
            assert(line_tree(s, ts, ls, node_of(e.1), o[m]));
        }
        assert(line_tree(s, ts, ls, node, j as int));
    }
    let child = GreenChild::Node(std::rc::Rc::new(node));
    let parent = if j < parents.len() { parents[j] } else { 4294967295u32 };
    let ghost kept = pending@;
    proof {
        lemma_pending_push(pending@, (parent, child));
        vstd::seq_lib::lemma_concat_associative(seq_text(children@), pending_text(pending@), Seq::<u8>::empty());
        assert(child_leaves(child) == seq_leaves(children@));
    }
    pending.push((parent, child));
    proof {
        lemma_parent_before(ls, j as int);
        let o = open_lines(ls, j as int, j as int);
        assert(o == seq![j as int] + rest);
        let p = pending@;
        let k = ks.len() as int;
        assert(kept == big.take(n0 - k));
        assert forall|i: int| 0 <= i < o.len() implies {
            let e = #[trigger] p[p.len() - 1 - i];
            &&& e.0 == parent_code(ls, o[i])
            &&& e.1 is Node
            &&& line_tree(s, ts, ls, node_of(e.1), o[i])
        } by {
            if i > 0 {
                assert(p[p.len() - 1 - i] == kept[kept.len() - 1 - (i - 1)]);
                assert(kept[kept.len() - 1 - (i - 1)] == big[n0 - 1 - (k + i - 1)]);
                assert(o[i] == rest[i - 1]);
                assert((ks + rest)[k + i - 1] == rest[i - 1]);
                let e = big[big.len() - 1 - (k + i - 1)];
                assert(line_tree(s, ts, ls, node_of(e.1), (ks + rest)[k + i - 1]));
            } else {
                assert(p[p.len() - 1] == (parent, child));
            }
        }
    }
}

/// Build the green tree, in token order: one `LINE` node per source line,
/// holding its tokens and then the lines nested under it. Iterative, so depth
/// costs heap, not stack.
pub fn build(input: &[u8], lexed: &Lexed) -> (c: Cst)
    requires
        lexed.wf(input@),
    ensures
        c.text() == input@,
        c.root_node().kind_of() == SyntaxKind(kind::STREAM),
        c.root_node().leaves() == tokens_leaves(input@, lexed.tokens@),
        yaml_tree(input@, lexed.tokens@, lexed.lines@, c.root_node()),
{
    let ghost s = input@;
    let ghost ts = lexed.tokens@;
    let ghost ls = lexed.lines@;
    let ghost f0: int = if has_bom(s) { 1 } else { 0 };
    proof {
        lemma_tiles_len(ts, s.len());
        lemma_tiles_text(s, ts, s.len());
        assert(s.subrange(0, s.len() as int) == s);
        assert(ts.subrange(0, ts.len() as int) == ts);
    }
    let parents = nesting(&lexed.lines);
    let n = lexed.lines.len();
    let mut pending: Vec<(u32, GreenChild)> = Vec::new();
    let mut j = n;
    proof {
        assert(open_lines(ls, n as int, n as int) == Seq::<int>::empty());
    }
    while j > 0
        invariant
            s == input@,
            ts == lexed.tokens@,
            ls == lexed.lines@,
            lexed.wf(s),
            n == ls.len(),
            f0 == (if has_bom(s) { 1int } else { 0int }),
            j <= n,
            pending_faithful(pending@),
            pending_text(pending@) == range_text(s, ts, if j < n { ls[j as int].first as int } else { ts.len() as int }, ts.len() as int),
            pending_leaves(pending@) == range_leaves(s, ts, if j < n { ls[j as int].first as int } else { ts.len() as int }, ts.len() as int),
            tokens_text(s, ts) == s,
            parents@.len() == ls.len(),
            forall|m: int| 0 <= m < ls.len() ==> parents@[m] == #[trigger] parent_code(ls, m),
            stack_holds(s, ts, ls, pending@, open_lines(ls, j as int, j as int)),
        decreases j,
    {
        let ghost start_next: int = if j < n { ls[j as int].first as int } else { ts.len() as int };
        proof {
            let l = ls[j - 1];
            assert(l.first <= l.end);
            if j < n {
                assert(ls[j as int].first == ls[j - 1].end);
            } else {
                assert(ls.last() == ls[j - 1]);
            }
            if j - 1 > 0 {
                assert(ls[j - 1].first == ls[j - 2].end);
            }
            lemma_lines_first_bound(ls, f0 as nat, ts.len(), j - 1);
            lemma_range_split(s, ts, l.first as int, l.end as int, ts.len() as int);
            lemma_range_split(s, ts, 0, l.first as int, ts.len() as int);
            lemma_range_leaves_split(s, ts, l.first as int, l.end as int, ts.len() as int);
            assert(ts.subrange(0, ts.len() as int) == ts);
            if j == n {
                assert(range_leaves(s, ts, ts.len() as int, ts.len() as int) =~= Seq::<(SyntaxKind, Seq<u8>)>::empty());
                assert(pending_leaves(pending@) =~= Seq::<(SyntaxKind, Seq<u8>)>::empty());
            }
        }
        build_line(input, lexed, &parents, j - 1, &mut pending);
        j = j - 1;
    }
    let mut children: Vec<GreenChild> = Vec::new();
    let has_bom_token = lexed.tokens.len() > 0 && lexed.tokens[0].kind.0 == kind::BOM
        && (lexed.lines.len() == 0 || lexed.lines[0].first > 0);
    proof {
        if n > 0 {
            assert(ls[0].first == f0);
        }
        assert(has_bom_token == has_bom(s));
        assert(seq_text(children@) == Seq::<u8>::empty());
        lemma_range_split(s, ts, 0, f0, ts.len() as int);
        lemma_range_leaves_split(s, ts, 0, f0, ts.len() as int);
        assert(ts.subrange(0, ts.len() as int) == ts);
        assert(range_leaves(s, ts, 0, ts.len() as int) =~= tokens_leaves(s, ts));
        if n == 0 {
            assert(pending_leaves(pending@) =~= Seq::<(SyntaxKind, Seq<u8>)>::empty());
            assert(range_leaves(s, ts, ts.len() as int, ts.len() as int) =~= Seq::<(SyntaxKind, Seq<u8>)>::empty());
        }
        assert(seq_leaves(children@) =~= Seq::<(SyntaxKind, Seq<u8>)>::empty());
    }
    if has_bom_token {
        let c = token_child(input, lexed.tokens[0]);
        proof {
            lemma_push_child(children@, c);
            lemma_range_one(s, ts, 0);
            assert(Seq::<u8>::empty() + child_text(c) == child_text(c));
            assert(range_leaves(s, ts, 0, 1) =~= seq![token_leaf(s, ts[0])]);
            assert(Seq::<(SyntaxKind, Seq<u8>)>::empty() + child_leaves(c) =~= child_leaves(c));
        }
        children.push(c);
    } else {
        proof {
            assert(range_leaves(s, ts, 0, 0) =~= Seq::<(SyntaxKind, Seq<u8>)>::empty());
        }
    }
    proof {
        assert(seq_text(children@) + pending_text(pending@) == s);
        assert(seq_leaves(children@) + pending_leaves(pending@) == tokens_leaves(s, ts));
    }
    let ghost b: int = if has_bom(s) { 1 } else { 0 };
    let ghost big = pending@;
    let ghost n0 = pending@.len();
    let ghost bom = children@;
    proof {
        assert(children@.len() == b);
    }
    while pending.len() > 0
        invariant
            pending_faithful(pending@),
            all_faithful(children@),
            seq_text(children@) + pending_text(pending@) == s,
            seq_leaves(children@) + pending_leaves(pending@) == tokens_leaves(s, ts),
            s.len() <= u32::MAX,
            b == (if has_bom(s) { 1int } else { 0int }),
            b <= children@.len() <= b + n0,
            children@.take(b) == bom,
            n0 == big.len(),
            pending@ == big.take(n0 - (children@.len() - b)),
            forall|m: int| 0 <= m < children@.len() - b ==> #[trigger] children@[b + m] == big[n0 - 1 - m].1,
        decreases pending@.len(),
    {
        let ghost before = pending@;
        let ghost k = children@.len() - b;
        proof {
            assert(big[n0 - 1 - k] == before.last());
        }
        let (_, c) = pending.pop().unwrap();
        proof {
            assert(pending@ == before.drop_last());
            lemma_pending_pop(before);
            lemma_push_child(children@, c);
            vstd::seq_lib::lemma_concat_associative(seq_text(children@), child_text(c), pending_text(pending@));
            vstd::seq_lib::lemma_concat_associative(seq_leaves(children@), child_leaves(c), pending_leaves(pending@));
            assert(pending@ =~= big.take(n0 - (k + 1)));
        }
        let ghost ch0 = children@;
        children.push(c);
        proof {
            assert(children@ == ch0.push(c));
            assert(children@.take(b) =~= ch0.take(b));
            assert forall|m: int| 0 <= m < children@.len() - b implies #[trigger] children@[b + m] == big[n0 - 1 - m].1 by {
                if m < k {
                    assert(children@[b + m] == ch0[b + m]);
                }
            }
        }
    }
    proof {
        assert(children@.len() == b + n0);
        assert(seq_text(children@) + Seq::<u8>::empty() == seq_text(children@));
        assert(seq_leaves(children@) + Seq::<(SyntaxKind, Seq<u8>)>::empty() =~= seq_leaves(children@));
        lemma_faithful_sum(children@);
    }
    let root = GreenNode::new(SyntaxKind(kind::STREAM), children);
    proof {
        let kids = root.kids();
        let rs = root_lines(ls);
        assert(rs == open_lines(ls, 0, 0));
        lemma_open_lines(ls, 0, 0);
        if b == 1 {
            assert(kids[0] == bom[0]);
        }
        assert forall|m: int| 0 <= m < rs.len() implies 0 <= #[trigger] rs[m] < ls.len() && kids[b + m] is Node
            && line_tree(s, ts, ls, node_of(kids[b + m]), rs[m]) by {
            assert(kids[b + m] == big[n0 - 1 - m].1);
            let e = big[big.len() - 1 - m];
            assert(line_tree(s, ts, ls, node_of(e.1), rs[m]));
        }
    }
    Cst::new(std::rc::Rc::new(root))
}

/// Line `j` starts no earlier than the first line.
proof fn lemma_lines_first_bound(ls: Seq<LineSpan>, f0: nat, n: nat, j: int)
    requires
        lines_ok(ls, f0, n),
        0 <= j < ls.len(),
    ensures
        f0 <= ls[j].first <= ls[j].end <= n,
    decreases ls.len() - j,
{
    if j + 1 < ls.len() {
        lemma_lines_first_bound(ls, f0, n, j + 1);
        assert(ls[j + 1].first == ls[j].end);
    } else {
        assert(ls.last() == ls[j]);
    }
    lemma_lines_first_lower(ls, f0, n, j);
}

proof fn lemma_lines_first_lower(ls: Seq<LineSpan>, f0: nat, n: nat, j: int)
    requires
        lines_ok(ls, f0, n),
        0 <= j < ls.len(),
    ensures
        f0 <= ls[j].first,
    decreases j,
{
    if j > 0 {
        lemma_lines_first_lower(ls, f0, n, j - 1);
        assert(ls[j].first == ls[j - 1].end);
    }
}

} // verus!

verus! {

/// The structural findings on `s`, over the tokens and lines it lexes to.
pub open spec fn yaml_findings_of(s: Seq<u8>) -> Seq<rules::Finding> {
    rules::yaml_findings(s, yaml_tokens(s), yaml_lines(s))
}

/// How many diagnostics YAML's parse refuses `s` with: the lexer's, one per
/// error token, when there are any, else the structural rules' findings.
pub open spec fn yaml_refusals(s: Seq<u8>) -> nat {
    let e = error_count(yaml_tokens(s));
    if e > 0 { e } else { yaml_findings_of(s).len() }
}

/// Whether `diags` are what YAML's parse refuses `s` with: the lexer's, one
/// per error token, when there are any, else the structural rules' findings.
pub open spec fn yaml_refuses(s: Seq<u8>, diags: Seq<Diagnostic>) -> bool {
    &&& error_count(yaml_tokens(s)) > 0 ==> diag_view(diags) == error_diags(yaml_tokens(s))
    &&& error_count(yaml_tokens(s)) == 0 ==> rules::same_findings(diags, yaml_findings_of(s))
}

/// Whether YAML input parses: the lexer makes no error token and the
/// structural rules find nothing.
pub open spec fn yaml_accepts(s: Seq<u8>) -> bool {
    error_count(yaml_tokens(s)) == 0 && yaml_findings_of(s).len() == 0
}

/// Parse `input` into a lossless tree, or report why not: the lexer's
/// diagnostics if it found any, else the structural ones. A tree's text is
/// the input, byte for byte.
pub fn parse(input: &[u8]) -> (r: Result<Cst, ParseReport>)
    requires
        input@.len() <= u32::MAX,
    ensures
        r is Ok <==> yaml_accepts(input@),
        r matches Ok(c) ==> c.text() == input@,
        r matches Ok(c) ==> c.root_node().leaves() == tokens_leaves(input@, yaml_tokens(input@)),
        r matches Ok(c) ==> yaml_tree(input@, yaml_tokens(input@), yaml_lines(input@), c.root_node()),
        r matches Err(rep) ==> rep.diags().len() >= 1,
        r matches Err(rep) ==> rep.diags().len() == yaml_refusals(input@),
        r matches Err(rep) ==> yaml_refuses(input@, rep.diags()),
        r matches Err(rep) ==> error_count(yaml_tokens(input@)) > 0 ==> diag_view(rep.diags()) == error_diags(yaml_tokens(input@)),
        r matches Err(rep) ==> error_count(yaml_tokens(input@)) == 0 ==> rules::same_findings(rep.diags(), yaml_findings_of(input@)),
{
    let lexed = lex(input);
    if lexed.diagnostics.len() > 0 {
        return Err(ParseReport::new(lexed.diagnostics));
    }
    let structural = validate(&lexed, input);
    if structural.len() > 0 {
        return Err(ParseReport::new(structural));
    }
    Ok(build(input, &lexed))
}

} // verus!
