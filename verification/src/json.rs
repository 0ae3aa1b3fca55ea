//! JSON, lossless. RFC 8259.
//!
//! Three passes: [`lex`] puts every byte into exactly one lexeme, [`validate`]
//! checks the grammar over the significant lexemes with an explicit stack, and
//! [`build`] makes the green tree in lexeme order. [`parse`] composes them.
pub mod kind;

use crate::cst::{
    all_faithful, child_depths, child_leaves, child_starts, child_text, deeper, faithful, first_marked, seq_depths, seq_leaves, seq_starts,
    lemma_faithful_sum, seq_text, Cst, GreenChild, GreenNode, GreenToken, Span, SyntaxKind,
};
use crate::report::{Diagnostic, ParseReport};
use crate::text::{decimal, push_char, push_decimal, string_of};
use vstd::prelude::*;
use vstd::string::*;
use vstd::utf8::valid_utf8;

verus! {

/// One lexeme: a kind and the byte range it covers.
#[derive(Clone, Copy, Debug)]
pub struct Lexeme {
    /// What it is.
    pub kind: SyntaxKind,
    /// Where it is.
    pub span: Span,
}

/// Whether a kind code is trivia: whitespace or a byte-order mark.
pub open spec fn is_trivia_kind(k: u16) -> bool {
    k == kind::WHITESPACE || k == kind::BOM
}

impl Lexeme {
    /// Whether this lexeme carries no meaning for the grammar.
    pub fn is_trivia(self) -> (r: bool)
        ensures
            r == is_trivia_kind(self.kind.0),
    {
        self.kind.0 == kind::WHITESPACE || self.kind.0 == kind::BOM
    }
}

/// Output of [`lex`]: a total cover of the input, plus anything wrong with it.
#[derive(Debug)]
pub struct Lexed {
    /// Every byte of the input, in order, in exactly one lexeme.
    pub lexemes: Vec<Lexeme>,
    /// Lexical problems. Non-empty means reject.
    pub diagnostics: Vec<Diagnostic>,
}

// --- the lexical grammar, as specifications ---------------------------------

/// Space, tab, line feed, carriage return.
pub open spec fn is_ws(b: u8) -> bool {
    b == 32 || b == 9 || b == 10 || b == 13
}

/// `0`-`9`.
pub open spec fn is_digit(b: u8) -> bool {
    48 <= b <= 57
}

/// `0`-`9`, `A`-`F`, `a`-`f`.
pub open spec fn is_hex(b: u8) -> bool {
    is_digit(b) || (65 <= b <= 70) || (97 <= b <= 102)
}

/// `A`-`Z`, `a`-`z`.
pub open spec fn is_alpha(b: u8) -> bool {
    (65 <= b <= 90) || (97 <= b <= 122)
}

/// End of the run of whitespace starting at `i`.
pub open spec fn ws_end(s: Seq<u8>, i: nat) -> nat
    decreases s.len() - i,
{
    if i < s.len() && is_ws(s[i as int]) {
        ws_end(s, i + 1)
    } else {
        i
    }
}

/// End of the run of digits starting at `i`.
pub open spec fn digits_end(s: Seq<u8>, i: nat) -> nat
    decreases s.len() - i,
{
    if i < s.len() && is_digit(s[i as int]) {
        digits_end(s, i + 1)
    } else {
        i
    }
}

/// End of the run of ASCII letters starting at `i`.
pub open spec fn alpha_end(s: Seq<u8>, i: nat) -> nat
    decreases s.len() - i,
{
    if i < s.len() && is_alpha(s[i as int]) {
        alpha_end(s, i + 1)
    } else {
        i
    }
}

/// Number of hex digits starting at `i`, at most `k`.
pub open spec fn hex_count(s: Seq<u8>, i: nat, k: nat) -> nat
    decreases k,
{
    if k == 0 || i >= s.len() || !is_hex(s[i as int]) {
        0
    } else {
        1 + hex_count(s, i + 1, (k - 1) as nat)
    }
}

pub proof fn lemma_hex_count_bound(s: Seq<u8>, i: nat, k: nat)
    ensures
        hex_count(s, i, k) <= k,
        i <= s.len() ==> i + hex_count(s, i, k) <= s.len(),
    decreases k,
{
    if k > 0 && i < s.len() && is_hex(s[i as int]) {
        lemma_hex_count_bound(s, i + 1, (k - 1) as nat);
    }
}

/// The escape characters that stand for themselves or a control character.
pub open spec fn is_simple_escape(c: u8) -> bool {
    c == 34 || c == 92 || c == 47 || c == 98 || c == 102 || c == 110 || c == 114 || c == 116
}

/// Scan a string body from `i` (just after the opening quote): the position
/// after the closing quote or where scanning stopped, whether a closing quote
/// was found, and whether the body obeyed RFC 8259 §7.
pub open spec fn string_scan(s: Seq<u8>, i: nat) -> (nat, bool, bool)
    decreases s.len() - i,
{
    if i >= s.len() {
        (i, false, false)
    } else {
        let b = s[i as int];
        if b == 34 {
            (i + 1, true, true)
        } else if b < 32 {
            let r = string_scan(s, i + 1);
            (r.0, r.1, false)
        } else if b == 92 {
            if i + 1 >= s.len() {
                (i + 1, false, false)
            } else {
                let c = s[i + 1 as int];
                if is_simple_escape(c) {
                    string_scan(s, i + 2)
                } else if c == 117 {
                    let j = hex_count(s, i + 2, 4);
                    proof {
                        lemma_hex_count_bound(s, i + 2, 4);
                    }
                    let r = string_scan(s, i + 2 + j);
                    (r.0, r.1, r.2 && j == 4)
                } else {
                    let r = string_scan(s, i + 2);
                    (r.0, r.1, false)
                }
            }
        } else {
            string_scan(s, i + 1)
        }
    }
}

/// Optional exponent of a number from `p`: where it ends, and whether it is well formed.
pub open spec fn exponent_scan(s: Seq<u8>, p: nat) -> (nat, bool) {
    if p < s.len() && (s[p as int] == 101 || s[p as int] == 69) {
        let q = p + 1;
        let q2 = if q < s.len() && (s[q as int] == 43 || s[q as int] == 45) { q + 1 } else { q };
        if q2 < s.len() && is_digit(s[q2 as int]) {
            (digits_end(s, q2), true)
        } else {
            (q2, false)
        }
    } else {
        (p, true)
    }
}

/// Optional fraction and exponent of a number from `p`.
pub open spec fn fraction_scan(s: Seq<u8>, p: nat) -> (nat, bool) {
    if p < s.len() && s[p as int] == 46 {
        let q = p + 1;
        if q < s.len() && is_digit(s[q as int]) {
            exponent_scan(s, digits_end(s, q))
        } else {
            (q, false)
        }
    } else {
        exponent_scan(s, p)
    }
}

/// RFC 8259 §6, `-? (0 | [1-9][0-9]*) (. [0-9]+)? ([eE] [+-]? [0-9]+)?`,
/// scanned from `i`: where the number (or the malformed attempt) ends, and
/// whether it is well formed.
pub open spec fn number_scan(s: Seq<u8>, i: nat) -> (nat, bool) {
    let p0 = if i < s.len() && s[i as int] == 45 { i + 1 } else { i };
    if p0 < s.len() && s[p0 as int] == 48 {
        let p1 = p0 + 1;
        if p1 < s.len() && is_digit(s[p1 as int]) {
            (digits_end(s, p1), false)
        } else {
            fraction_scan(s, p1)
        }
    } else if p0 < s.len() && 49 <= s[p0 as int] <= 57 {
        fraction_scan(s, digits_end(s, p0))
    } else {
        (p0, false)
    }
}

/// A literal word at `i`: its end and whether it matched; a mismatch consumes
/// the run of letters (at least one byte).
pub open spec fn literal_scan(s: Seq<u8>, i: nat, word: Seq<u8>) -> (nat, bool) {
    if i + word.len() <= s.len() && s.subrange(i as int, (i + word.len()) as int) == word {
        (i + word.len(), true)
    } else {
        let p = alpha_end(s, i);
        (if p == i { i + 1 } else { p }, false)
    }
}

/// The lexeme starting at `i < s.len()`: its kind code, its end, and whether
/// it is free of lexical problems.
pub open spec fn next_lexeme(s: Seq<u8>, i: nat) -> (u16, nat, bool) {
    let b = s[i as int];
    if is_ws(b) {
        (kind::WHITESPACE, ws_end(s, i), true)
    } else if b == 123 {
        (kind::L_BRACE, i + 1, true)
    } else if b == 125 {
        (kind::R_BRACE, i + 1, true)
    } else if b == 91 {
        (kind::L_BRACKET, i + 1, true)
    } else if b == 93 {
        (kind::R_BRACKET, i + 1, true)
    } else if b == 58 {
        (kind::COLON, i + 1, true)
    } else if b == 44 {
        (kind::COMMA, i + 1, true)
    } else if b == 34 {
        let r = string_scan(s, i + 1);
        if r.1 { (kind::STRING, r.0, r.2) } else { (kind::ERROR, r.0, false) }
    } else if b == 45 || is_digit(b) {
        let r = number_scan(s, i);
        if r.1 { (kind::NUMBER, r.0, true) } else { (kind::ERROR, r.0, false) }
    } else if b == 116 {
        let r = literal_scan(s, i, seq![116u8, 114, 117, 101]);
        if r.1 { (kind::TRUE, r.0, true) } else { (kind::ERROR, r.0, false) }
    } else if b == 102 {
        let r = literal_scan(s, i, seq![102u8, 97, 108, 115, 101]);
        if r.1 { (kind::FALSE, r.0, true) } else { (kind::ERROR, r.0, false) }
    } else if b == 110 {
        let r = literal_scan(s, i, seq![110u8, 117, 108, 108]);
        if r.1 { (kind::NULL, r.0, true) } else { (kind::ERROR, r.0, false) }
    } else {
        (kind::ERROR, i + 1, false)
    }
}

/// A lexeme of kind `k` covering `i..e`.
pub open spec fn mk_lexeme(k: u16, i: nat, e: nat) -> Lexeme {
    Lexeme { kind: SyntaxKind(k), span: Span { start: i as u32, end: e as u32 } }
}

/// The lexemes of `s` from position `i` to the end.
pub open spec fn lex_from(s: Seq<u8>, i: nat) -> Seq<Lexeme>
    decreases s.len() - i,
{
    if i >= s.len() {
        Seq::empty()
    } else {
        let r = next_lexeme(s, i);
        if r.1 <= i || r.1 > s.len() {
            Seq::empty()
        } else {
            seq![mk_lexeme(r.0, i, r.1)] + lex_from(s, r.1)
        }
    }
}

/// Whether every lexeme from `i` on is free of lexical problems.
pub open spec fn clean_from(s: Seq<u8>, i: nat) -> bool
    decreases s.len() - i,
{
    if i >= s.len() {
        true
    } else {
        let r = next_lexeme(s, i);
        if r.1 <= i || r.1 > s.len() {
            true
        } else {
            r.2 && clean_from(s, r.1)
        }
    }
}

/// Whether `s` starts with a UTF-8 byte-order mark.
pub open spec fn has_bom(s: Seq<u8>) -> bool {
    s.len() >= 3 && s[0] == 0xef && s[1] == 0xbb && s[2] == 0xbf
}

/// Where lexing proper starts: after the byte-order mark, if any.
pub open spec fn body_start(s: Seq<u8>) -> nat {
    if has_bom(s) { 3 } else { 0 }
}

/// The lexemes of a JSON text: an optional BOM, then maximal-munch lexing.
pub open spec fn json_lexemes(s: Seq<u8>) -> Seq<Lexeme> {
    if has_bom(s) {
        seq![mk_lexeme(kind::BOM, 0, 3)] + lex_from(s, 3)
    } else {
        lex_from(s, 0)
    }
}

/// Whether lexing `s` finds no problem: valid UTF-8 and every lexeme clean.
pub open spec fn json_lex_clean(s: Seq<u8>) -> bool {
    valid_utf8(s) && clean_from(s, body_start(s))
}

// --- the lexer's diagnostics, as specifications ----------------------------------

/// A diagnostic, viewed: its span and message.
pub type Diag = (Span, Seq<char>);

/// Diagnostics, viewed.
pub open spec fn diag_view(ds: Seq<Diagnostic>) -> Seq<Diag> {
    Seq::new(ds.len(), |i: int| (ds[i].span, ds[i].message@))
}

/// A byte position saturated to `u32::MAX`.
pub open spec fn sat(a: int) -> u32 {
    if a > u32::MAX { u32::MAX } else { a as u32 }
}

/// The span `a..b`, each end saturated to `u32::MAX`.
pub open spec fn sat_span(a: int, b: int) -> Span {
    Span { start: sat(a), end: sat(b) }
}

/// A lowercase hexadecimal digit.
pub open spec fn hex_digit(d: u8) -> char {
    if d < 10 { (48 + d) as char } else { (87 + d) as char }
}

/// A byte as `0x` and two lowercase hex digits.
pub open spec fn hex_byte(b: u8) -> Seq<char> {
    seq!['0', 'x', hex_digit(b / 16), hex_digit(b % 16)]
}

/// Bytes read one character each, as `b as char` reads them.
pub open spec fn byte_chars(b: Seq<u8>) -> Seq<char> {
    Seq::new(b.len(), |i: int| b[i] as char)
}

/// The diagnostics of a string body scanned from `i`, whose quote opened at
/// `start`, in the order [`string_scan`] meets the problems.
pub open spec fn string_diags(s: Seq<u8>, i: nat, start: nat) -> Seq<Diag>
    decreases s.len() - i,
{
    if i >= s.len() {
        seq![(sat_span(start as int, i as int), "unterminated string: reached end of input before the closing quote"@)]
    } else {
        let b = s[i as int];
        if b == 34 {
            Seq::empty()
        } else if b < 32 {
            seq![(sat_span(i as int, (i + 1) as int), "unescaped control character "@ + hex_byte(b) + " in string"@)] + string_diags(s, i + 1, start)
        } else if b == 92 {
            if i + 1 >= s.len() {
                seq![(sat_span(start as int, (i + 1) as int), "unterminated string: input ends inside an escape"@)]
            } else {
                let c = s[i + 1 as int];
                if is_simple_escape(c) {
                    string_diags(s, i + 2, start)
                } else if c == 117 {
                    let j = hex_count(s, i + 2, 4);
                    proof {
                        lemma_hex_count_bound(s, i + 2, 4);
                    }
                    let at = i + 2 + j;
                    (if j < 4 { seq![(sat_span(at as int, (at + 1) as int), "\\u must be followed by four hex digits"@)] } else { Seq::empty() })
                        + string_diags(s, at, start)
                } else {
                    seq![(sat_span((i + 1) as int, (i + 2) as int), "invalid escape `\\"@ + seq![c as char] + "`"@)] + string_diags(s, i + 2, start)
                }
            }
        } else {
            string_diags(s, i + 1, start)
        }
    }
}

/// The diagnostic of an optional exponent from `p`, of a number from `start`.
pub open spec fn exponent_diags(s: Seq<u8>, p: nat, start: nat) -> Seq<Diag> {
    if p < s.len() && (s[p as int] == 101 || s[p as int] == 69) {
        let q = p + 1;
        let q2 = if q < s.len() && (s[q as int] == 43 || s[q as int] == 45) { q + 1 } else { q };
        if q2 < s.len() && is_digit(s[q2 as int]) {
            Seq::empty()
        } else {
            seq![(sat_span(start as int, (q2 + 1) as int), "number has an empty exponent"@)]
        }
    } else {
        Seq::empty()
    }
}

/// The diagnostic of an optional fraction and exponent from `p`.
pub open spec fn fraction_diags(s: Seq<u8>, p: nat, start: nat) -> Seq<Diag> {
    if p < s.len() && s[p as int] == 46 {
        let q = p + 1;
        if q < s.len() && is_digit(s[q as int]) {
            exponent_diags(s, digits_end(s, q), start)
        } else {
            seq![(sat_span(start as int, (q + 1) as int), "number has a trailing decimal point"@)]
        }
    } else {
        exponent_diags(s, p, start)
    }
}

/// The diagnostic of a number from `i`, if it is malformed.
pub open spec fn number_diags(s: Seq<u8>, i: nat) -> Seq<Diag> {
    let p0 = if i < s.len() && s[i as int] == 45 { i + 1 } else { i };
    if p0 < s.len() && s[p0 as int] == 48 {
        let p1 = p0 + 1;
        if p1 < s.len() && is_digit(s[p1 as int]) {
            seq![(sat_span(i as int, (p1 + 1) as int), "number has a leading zero"@)]
        } else {
            fraction_diags(s, p1, i)
        }
    } else if p0 < s.len() && 49 <= s[p0 as int] <= 57 {
        fraction_diags(s, digits_end(s, p0), i)
    } else {
        seq![(sat_span(i as int, (p0 + 1) as int), "number has no integer part"@)]
    }
}

/// The diagnostic of a literal `word` expected at `i`, if it is not there.
pub open spec fn literal_diags(s: Seq<u8>, i: nat, word: Seq<u8>) -> Seq<Diag> {
    let r = literal_scan(s, i, word);
    if r.1 {
        Seq::empty()
    } else {
        seq![(sat_span(i as int, r.0 as int), "expected `"@ + byte_chars(word) + "`, found `"@ + byte_chars(s.subrange(i as int, r.0 as int)) + "`"@)]
    }
}

/// The diagnostics of the lexeme at `i < s.len()`.
pub open spec fn lexeme_diags(s: Seq<u8>, i: nat) -> Seq<Diag> {
    let b = s[i as int];
    if is_ws(b) || b == 123 || b == 125 || b == 91 || b == 93 || b == 58 || b == 44 {
        Seq::empty()
    } else if b == 34 {
        string_diags(s, i + 1, i)
    } else if b == 45 || is_digit(b) {
        number_diags(s, i)
    } else if b == 116 {
        literal_diags(s, i, seq![116u8, 114, 117, 101])
    } else if b == 102 {
        literal_diags(s, i, seq![102u8, 97, 108, 115, 101])
    } else if b == 110 {
        literal_diags(s, i, seq![110u8, 117, 108, 108])
    } else {
        seq![(sat_span(i as int, (i + 1) as int), "unexpected byte "@ + hex_byte(b))]
    }
}

/// The diagnostics of the lexemes from `i` on, in order.
pub open spec fn lex_diags_from(s: Seq<u8>, i: nat) -> Seq<Diag>
    decreases s.len() - i,
{
    if i >= s.len() {
        Seq::empty()
    } else {
        let r = next_lexeme(s, i);
        if r.1 <= i || r.1 > s.len() {
            Seq::empty()
        } else {
            lexeme_diags(s, i) + lex_diags_from(s, r.1)
        }
    }
}

/// Whether `i` is how far `s` is valid UTF-8: its first `i` bytes are, and
/// no longer prefix is.
pub open spec fn valid_up_to(s: Seq<u8>, i: int) -> bool {
    0 <= i < s.len() && valid_utf8(s.take(i)) && forall|j: int| i < j <= s.len() ==> !valid_utf8(#[trigger] s.take(j))
}

/// The diagnostic of input that is not UTF-8: one byte at how far it is valid.
pub open spec fn utf8_diags(s: Seq<u8>) -> Seq<Diag> {
    if valid_utf8(s) {
        Seq::empty()
    } else {
        let at = choose|i: int| valid_up_to(s, i);
        let a = sat(at);
        seq![(Span { start: a, end: if a == u32::MAX { u32::MAX } else { (a + 1) as u32 } }, "input is not valid UTF-8 (RFC 8259 \u{a7}8.1)"@)]
    }
}

/// Every diagnostic the JSON lexer reports on `s`, in order: the UTF-8
/// problem first, then each lexeme's.
pub open spec fn json_lex_diags(s: Seq<u8>) -> Seq<Diag> {
    utf8_diags(s) + lex_diags_from(s, body_start(s))
}

// --- the lexer ---------------------------------------------------------------

/// `std::str::from_utf8`: `None` when the bytes are UTF-8, else the length
/// of their longest valid prefix (`Utf8Error::valid_up_to`, documented as the
/// largest index up to which the bytes are valid UTF-8).
#[verifier::external_body]
pub(crate) fn utf8_error_at(input: &[u8]) -> (r: Option<usize>)
    ensures
        r is None <==> valid_utf8(input@),
        r matches Some(i) ==> i < input@.len() && valid_utf8(input@.take(i as int)) && forall|j: int|
            i < j <= input@.len() ==> !valid_utf8(#[trigger] input@.take(j)),
{
    match std::str::from_utf8(input) {
        Ok(_) => None,
        Err(e) => Some(e.valid_up_to()),
    }
}

/// A span from byte positions, each saturated to `u32::MAX`.
fn span(start: usize, end: usize) -> (s: Span)
    ensures
        s.start == (if start > u32::MAX { u32::MAX as int } else { start as int }),
        s.end == (if end > u32::MAX { u32::MAX as int } else { end as int }),
{
    let a: u32 = if start > 4294967295usize { 4294967295u32 } else { start as u32 };
    let b: u32 = if end > 4294967295usize { 4294967295u32 } else { end as u32 };
    Span { start: a, end: b }
}

/// Append `0x` and two lowercase hex digits.
fn push_hex_byte(s: &mut String, b: u8)
    ensures
        final(s)@.len() == old(s)@.len() + 4,
        final(s)@ == old(s)@ + hex_byte(b),
{
    push_char(s, '0');
    push_char(s, 'x');
    let hi = b / 16;
    let lo = b % 16;
    let ch = if hi < 10 { (48u8 + hi) as char } else { (87u8 + hi) as char };
    let cl = if lo < 10 { (48u8 + lo) as char } else { (87u8 + lo) as char };
    push_char(s, ch);
    push_char(s, cl);
    proof {
        assert(s@ =~= old(s)@ + hex_byte(b));
    }
}

fn push_diag(diagnostics: &mut Vec<Diagnostic>, start: usize, end: usize, message: String)
    ensures
        final(diagnostics)@.len() == old(diagnostics)@.len() + 1,
        diag_view(final(diagnostics)@) == diag_view(old(diagnostics)@) + seq![(sat_span(start as int, end as int), message@)],
{
    let ghost d0 = diag_view(diagnostics@);
    let ghost m = message@;
    diagnostics.push(Diagnostic { span: span(start, end), message });
    proof {
        assert(diag_view(diagnostics@) =~= d0 + seq![(sat_span(start as int, end as int), m)]);
    }
}

fn ws_end_exec(input: &[u8], i: usize) -> (r: usize)
    requires
        i <= input.len(),
    ensures
        r == ws_end(input@, i as nat),
        i <= r <= input.len(),
{
    let mut p = i;
    while p < input.len() && (input[p] == 32 || input[p] == 9 || input[p] == 10 || input[p] == 13)
        invariant
            i <= p <= input.len(),
            ws_end(input@, i as nat) == ws_end(input@, p as nat),
        decreases input.len() - p,
    {
        p = p + 1;
    }
    p
}

fn digits_end_exec(input: &[u8], i: usize) -> (r: usize)
    requires
        i <= input.len(),
    ensures
        r == digits_end(input@, i as nat),
        i <= r <= input.len(),
        (i < input@.len() && is_digit(input@[i as int])) ==> r > i,
{
    let mut p = i;
    while p < input.len() && 48 <= input[p] && input[p] <= 57
        invariant
            i <= p <= input.len(),
            digits_end(input@, i as nat) == digits_end(input@, p as nat),
        decreases input.len() - p,
    {
        p = p + 1;
    }
    p
}

fn alpha_end_exec(input: &[u8], i: usize) -> (r: usize)
    requires
        i <= input.len(),
    ensures
        r == alpha_end(input@, i as nat),
        i <= r <= input.len(),
{
    let mut p = i;
    while p < input.len() && ((65 <= input[p] && input[p] <= 90) || (97 <= input[p] && input[p] <= 122))
        invariant
            i <= p <= input.len(),
            alpha_end(input@, i as nat) == alpha_end(input@, p as nat),
        decreases input.len() - p,
    {
        p = p + 1;
    }
    p
}

fn is_hex_exec(b: u8) -> (r: bool)
    ensures
        r == is_hex(b),
{
    (48 <= b && b <= 57) || (65 <= b && b <= 70) || (97 <= b && b <= 102)
}

fn hex_count_exec(input: &[u8], i: usize) -> (r: usize)
    requires
        i <= input.len(),
    ensures
        r == hex_count(input@, i as nat, 4),
        i + r <= input.len(),
{
    let mut n: usize = 0;
    proof {
        lemma_hex_count_bound(input@, i as nat, 4);
    }
    while n < 4 && i + n < input.len() && is_hex_exec(input[i + n])
        invariant
            n <= 4,
            i + n <= input.len(),
            hex_count(input@, i as nat, 4) == n + hex_count(input@, (i + n) as nat, (4 - n) as nat),
        decreases 4 - n,
    {
        n = n + 1;
    }
    n
}

fn lex_string(input: &[u8], start: usize, diagnostics: &mut Vec<Diagnostic>) -> (r: (u16, usize))
    requires
        start < input.len(),
        input@[start as int] == 34,
    ensures
        ({
            let sc = string_scan(input@, (start + 1) as nat);
            &&& r.1 == sc.0
            &&& r.0 == (if sc.1 { kind::STRING } else { kind::ERROR })
            &&& (final(diagnostics)@.len() == old(diagnostics)@.len()) == (sc.1 && sc.2)
            &&& final(diagnostics)@.len() >= old(diagnostics)@.len()
        }),
        diag_view(final(diagnostics)@) == diag_view(old(diagnostics)@) + string_diags(input@, (start + 1) as nat, start as nat),
        start < r.1 <= input.len(),
{
    let s = Ghost(input@);
    let mut pos = start + 1;
    let ghost n0 = diagnostics@.len();
    let ghost all = diag_view(old(diagnostics)@) + string_diags(input@, (start + 1) as nat, start as nat);
    loop
        invariant
            start + 1 <= pos <= input.len(),
            diagnostics@.len() >= n0,
            n0 == old(diagnostics)@.len(),
            s@ == input@,
            all == diag_view(old(diagnostics)@) + string_diags(input@, (start + 1) as nat, start as nat),
            diag_view(diagnostics@) + string_diags(input@, pos as nat, start as nat) == all,
            ({
                let whole = string_scan(s@, (start + 1) as nat);
                let rest = string_scan(s@, pos as nat);
                whole.0 == rest.0 && whole.1 == rest.1
                    && whole.2 == (rest.2 && diagnostics@.len() == n0)
            }),
        decreases input.len() - pos,
    {
        let ghost dv = diag_view(diagnostics@);
        if pos >= input.len() {
            let m = string_of("unterminated string: reached end of input before the closing quote");
            push_diag(diagnostics, start, pos, m);
            return (kind::ERROR, pos);
        }
        let ghost p = pos as nat;
        let ghost dl = diagnostics@.len();
        let byte = input[pos];
        if byte == 34 {
            proof {
                assert(dv + Seq::<Diag>::empty() =~= dv);
            }
            return (kind::STRING, pos + 1);
        } else if byte < 32 {
            let mut m = string_of("unescaped control character ");
            push_hex_byte(&mut m, byte);
            m.append(" in string");
            push_diag(diagnostics, pos, pos + 1, m);
            pos = pos + 1;
            proof {
                assert(string_scan(s@, p) == (string_scan(s@, p + 1).0, string_scan(s@, p + 1).1, false));
                let d = seq![(sat_span(p as int, (p + 1) as int), m@)];
                vstd::seq_lib::lemma_concat_associative(dv, d, string_diags(s@, p + 1, start as nat));
            }
        } else if byte == 92 {
            pos = pos + 1;
            if pos >= input.len() {
                let m = string_of("unterminated string: input ends inside an escape");
                push_diag(diagnostics, start, pos, m);
                proof {
                    assert(diag_view(diagnostics@) + Seq::<Diag>::empty() =~= diag_view(diagnostics@));
                }
                return (kind::ERROR, pos);
            }
            let c = input[pos];
            if c == 34 || c == 92 || c == 47 || c == 98 || c == 102 || c == 110 || c == 114 || c == 116 {
                pos = pos + 1;
                proof {
                    assert(string_scan(s@, p) == string_scan(s@, p + 2));
                }
            } else if c == 117 {
                pos = pos + 1;
                let n = hex_count_exec(input, pos);
                pos = pos + n;
                proof {
                    lemma_hex_count_bound(s@, p + 2, 4);
                    let r = string_scan(s@, p + 2 + hex_count(s@, p + 2, 4));
                    assert(string_scan(s@, p) == (r.0, r.1, r.2 && hex_count(s@, p + 2, 4) == 4));
                }
                if n < 4 {
                    let m = string_of("\\u must be followed by four hex digits");
                    push_diag(diagnostics, pos, pos.saturating_add(1), m);
                    proof {
                        let d = seq![(sat_span(pos as int, (pos + 1) as int), m@)];
                        vstd::seq_lib::lemma_concat_associative(dv, d, string_diags(s@, pos as nat, start as nat));
                    }
                } else {
                    proof {
                        assert(Seq::<Diag>::empty() + string_diags(s@, pos as nat, start as nat) =~= string_diags(s@, pos as nat, start as nat));
                    }
                }
            } else {
                let mut m = string_of("invalid escape `\\");
                push_char(&mut m, c as char);
                m.append("`");
                push_diag(diagnostics, pos, pos + 1, m);
                pos = pos + 1;
                proof {
                    assert(string_scan(s@, p) == (string_scan(s@, p + 2).0, string_scan(s@, p + 2).1, false));
                    let d = seq![(sat_span((p + 1) as int, (p + 2) as int), m@)];
                    assert(m@ =~= "invalid escape `\\"@ + seq![input@[(p + 1) as int] as char] + "`"@);
                    vstd::seq_lib::lemma_concat_associative(dv, d, string_diags(s@, p + 2, start as nat));
                }
            }
        } else {
            pos = pos + 1;
            proof {
                assert(string_scan(s@, p) == string_scan(s@, p + 1));
            }
        }
    }
}

fn exponent_exec(input: &[u8], p: usize, start: usize, diagnostics: &mut Vec<Diagnostic>) -> (r: (u16, usize))
    requires
        start < p <= input.len(),
    ensures
        ({
            let sc = exponent_scan(input@, p as nat);
            &&& r.1 == sc.0
            &&& r.0 == (if sc.1 { kind::NUMBER } else { kind::ERROR })
            &&& (final(diagnostics)@.len() == old(diagnostics)@.len()) == sc.1
            &&& final(diagnostics)@.len() >= old(diagnostics)@.len()
        }),
        diag_view(final(diagnostics)@) == diag_view(old(diagnostics)@) + exponent_diags(input@, p as nat, start as nat),
        p <= r.1 <= input.len(),
{
    let len = input.len();
    let mut pos = p;
    if pos < len && (input[pos] == 101 || input[pos] == 69) {
        pos = pos + 1;
        if pos < len && (input[pos] == 43 || input[pos] == 45) {
            pos = pos + 1;
        }
        if !(pos < len && 48 <= input[pos] && input[pos] <= 57) {
            push_diag(diagnostics, start, pos.saturating_add(1), string_of("number has an empty exponent"));
            return (kind::ERROR, pos);
        }
        pos = digits_end_exec(input, pos);
    }
    proof {
        assert(diag_view(diagnostics@) + Seq::<Diag>::empty() =~= diag_view(diagnostics@));
    }
    (kind::NUMBER, pos)
}

fn fraction_exec(input: &[u8], p: usize, start: usize, diagnostics: &mut Vec<Diagnostic>) -> (r: (u16, usize))
    requires
        start < p <= input.len(),
    ensures
        ({
            let sc = fraction_scan(input@, p as nat);
            &&& r.1 == sc.0
            &&& r.0 == (if sc.1 { kind::NUMBER } else { kind::ERROR })
            &&& (final(diagnostics)@.len() == old(diagnostics)@.len()) == sc.1
            &&& final(diagnostics)@.len() >= old(diagnostics)@.len()
        }),
        diag_view(final(diagnostics)@) == diag_view(old(diagnostics)@) + fraction_diags(input@, p as nat, start as nat),
        p <= r.1 <= input.len(),
{
    let len = input.len();
    if p < len && input[p] == 46 {
        let q = p + 1;
        if !(q < len && 48 <= input[q] && input[q] <= 57) {
            push_diag(diagnostics, start, q.saturating_add(1), string_of("number has a trailing decimal point"));
            return (kind::ERROR, q);
        }
        let d = digits_end_exec(input, q);
        return exponent_exec(input, d, start, diagnostics);
    }
    exponent_exec(input, p, start, diagnostics)
}

fn lex_number(input: &[u8], start: usize, diagnostics: &mut Vec<Diagnostic>) -> (r: (u16, usize))
    requires
        start < input.len(),
        input@[start as int] == 45 || is_digit(input@[start as int]),
    ensures
        ({
            let sc = number_scan(input@, start as nat);
            &&& r.1 == sc.0
            &&& r.0 == (if sc.1 { kind::NUMBER } else { kind::ERROR })
            &&& (final(diagnostics)@.len() == old(diagnostics)@.len()) == sc.1
            &&& final(diagnostics)@.len() >= old(diagnostics)@.len()
        }),
        diag_view(final(diagnostics)@) == diag_view(old(diagnostics)@) + number_diags(input@, start as nat),
        start < r.1 <= input.len(),
{
    let len = input.len();
    let mut pos = start;
    if input[pos] == 45 {
        pos = pos + 1;
    }
    if pos < len && input[pos] == 48 {
        let p1 = pos + 1;
        if p1 < len && 48 <= input[p1] && input[p1] <= 57 {
            push_diag(diagnostics, start, p1.saturating_add(1), string_of("number has a leading zero"));
            let e = digits_end_exec(input, p1);
            return (kind::ERROR, e);
        }
        fraction_exec(input, p1, start, diagnostics)
    } else if pos < len && 49 <= input[pos] && input[pos] <= 57 {
        let d = digits_end_exec(input, pos);
        fraction_exec(input, d, start, diagnostics)
    } else {
        push_diag(diagnostics, start, pos.saturating_add(1), string_of("number has no integer part"));
        (kind::ERROR, pos)
    }
}

/// Whether `word` occurs in `input` at `at`.
fn matches_at(input: &[u8], at: usize, word: &[u8]) -> (r: bool)
    requires
        at <= input.len(),
    ensures
        r == (at + word@.len() <= input@.len() && input@.subrange(at as int, at + word@.len()) == word@),
{
    let n = word.len();
    if n > input.len() - at {
        return false;
    }
    let mut i: usize = 0;
    while i < n
        invariant
            n == word@.len(),
            i <= n,
            at + n <= input@.len(),
            input@.len() <= usize::MAX,
            input@.subrange(at as int, at + i) == word@.subrange(0, i as int),
        decreases n - i,
    {
        let j: usize = at + i;
        if input[j] != word[i] {
            proof {
                assert(input@.subrange(at as int, at + word@.len())[i as int] != word@[i as int]);
            }
            return false;
        }
        proof {
            assert(input@.subrange(at as int, at + i + 1) == input@.subrange(at as int, at + i).push(input@[at + i]));
            assert(word@.subrange(0, i + 1) == word@.subrange(0, i as int).push(word@[i as int]));
        }
        i = i + 1;
    }
    proof {
        assert(word@.subrange(0, i as int) == word@);
    }
    true
}

fn lex_literal(input: &[u8], start: usize, word: &[u8], ok: u16, diagnostics: &mut Vec<Diagnostic>) -> (r: (u16, usize))
    requires
        start < input.len(),
    ensures
        ({
            let sc = literal_scan(input@, start as nat, word@);
            &&& r.1 == sc.0
            &&& r.0 == (if sc.1 { ok } else { kind::ERROR })
            &&& (final(diagnostics)@.len() == old(diagnostics)@.len()) == sc.1
            &&& final(diagnostics)@.len() >= old(diagnostics)@.len()
        }),
        diag_view(final(diagnostics)@) == diag_view(old(diagnostics)@) + literal_diags(input@, start as nat, word@),
        start < r.1 || word@.len() == 0,
        r.1 <= input.len(),
{
    if matches_at(input, start, word) {
        proof {
            assert(diag_view(diagnostics@) + Seq::<Diag>::empty() =~= diag_view(diagnostics@));
        }
        return (ok, start + word.len());
    }
    let mut pos = alpha_end_exec(input, start);
    if pos == start {
        pos = pos + 1;
    }
    let mut m = string_of("expected `");
    let mut i: usize = 0;
    while i < word.len()
        invariant
            i <= word@.len(),
            m@ == "expected `"@ + byte_chars(word@.take(i as int)),
        decreases word.len() - i,
    {
        push_char(&mut m, word[i] as char);
        proof {
            assert(byte_chars(word@.take(i + 1)) =~= byte_chars(word@.take(i as int)).push(word@[i as int] as char));
        }
        i = i + 1;
    }
    proof {
        assert(word@.take(word@.len() as int) =~= word@);
    }
    m.append("`, found `");
    let ghost head = m@;
    let mut j: usize = start;
    while j < pos
        invariant
            start <= j <= pos <= input.len(),
            m@ == head + byte_chars(input@.subrange(start as int, j as int)),
        decreases pos - j,
    {
        push_char(&mut m, input[j] as char);
        proof {
            assert(byte_chars(input@.subrange(start as int, j + 1)) =~= byte_chars(input@.subrange(start as int, j as int)).push(
                input@[j as int] as char));
        }
        j = j + 1;
    }
    m.append("`");
    push_diag(diagnostics, start, pos, m);
    (kind::ERROR, pos)
}

proof fn lemma_scan_bounds(s: Seq<u8>, i: nat)
    ensures
        i <= s.len() ==> i <= ws_end(s, i) <= s.len(),
        i <= s.len() ==> i <= digits_end(s, i) <= s.len(),
        i <= s.len() ==> i <= alpha_end(s, i) <= s.len(),
    decreases s.len() - i,
{
    if i < s.len() {
        lemma_scan_bounds(s, i + 1);
    }
}

proof fn lemma_string_scan_bounds(s: Seq<u8>, i: nat)
    requires
        i <= s.len(),
    ensures
        i < string_scan(s, i).0 <= s.len() || (i == s.len() && string_scan(s, i).0 == i),
    decreases s.len() - i,
{
    if i < s.len() {
        let b = s[i as int];
        if b == 34 {
        } else if b < 32 {
            lemma_string_scan_bounds(s, i + 1);
        } else if b == 92 {
            if i + 1 >= s.len() {
            } else {
                let c = s[i + 1 as int];
                if is_simple_escape(c) {
                    lemma_string_scan_bounds(s, i + 2);
                } else if c == 117 {
                    lemma_hex_count_bound(s, i + 2, 4);
                    lemma_string_scan_bounds(s, i + 2 + hex_count(s, i + 2, 4));
                } else {
                    lemma_string_scan_bounds(s, i + 2);
                }
            }
        } else {
            lemma_string_scan_bounds(s, i + 1);
        }
    }
}

/// The next lexeme always ends after it starts, and within the input.
pub proof fn lemma_next_lexeme_advances(s: Seq<u8>, i: nat)
    requires
        i < s.len(),
    ensures
        i < next_lexeme(s, i).1 <= s.len(),
{
    lemma_scan_bounds(s, i);
    lemma_scan_bounds(s, i + 1);
    let b = s[i as int];
    if b == 34 {
        lemma_string_scan_bounds(s, i + 1);
    } else if b == 45 || is_digit(b) {
        let p0 = if s[i as int] == 45 { i + 1 } else { i };
        lemma_scan_bounds(s, p0);
        lemma_scan_bounds(s, p0 + 1);
        let p1 = digits_end(s, p0);
        lemma_scan_bounds(s, p1);
        lemma_scan_bounds(s, p1 + 1);
        lemma_scan_bounds(s, p0 + 2);
        let q = digits_end(s, p0 + 2);
        lemma_scan_bounds(s, q);
        lemma_scan_bounds(s, q + 1);
        if p0 < s.len() {
            lemma_frac_bounds(s, p0 + 1);
            lemma_frac_bounds(s, p1);
        }
    }
}

proof fn lemma_frac_bounds(s: Seq<u8>, p: nat)
    requires
        p <= s.len(),
    ensures
        p <= fraction_scan(s, p).0 <= s.len(),
        p <= exponent_scan(s, p).0 <= s.len(),
{
    lemma_scan_bounds(s, p);
    lemma_scan_bounds(s, p + 1);
    lemma_scan_bounds(s, p + 2);
    if p < s.len() && s[p as int] == 46 && p + 1 < s.len() && is_digit(s[p + 1 as int]) {
        let d = digits_end(s, p + 1);
        lemma_scan_bounds(s, p + 1);
        lemma_exp_bounds(s, d);
    }
    lemma_exp_bounds(s, p);
}

proof fn lemma_exp_bounds(s: Seq<u8>, p: nat)
    requires
        p <= s.len(),
    ensures
        p <= exponent_scan(s, p).0 <= s.len(),
{
    lemma_scan_bounds(s, p + 1);
    lemma_scan_bounds(s, p + 2);
}

/// Tokenize `input`. Total: every byte lands in exactly one lexeme.
pub fn lex(input: &[u8]) -> (out: Lexed)
    requires
        input@.len() <= u32::MAX,
    ensures
        out.lexemes@ == json_lexemes(input@),
        (out.diagnostics@.len() == 0) == json_lex_clean(input@),
        diag_view(out.diagnostics@) == json_lex_diags(input@),
{
    let mut lexemes: Vec<Lexeme> = Vec::new();
    let mut diagnostics: Vec<Diagnostic> = Vec::new();
    let utf8 = utf8_error_at(input);
    match utf8 {
        Some(at) => {
            let start: u32 = if at > 4294967295usize { 4294967295u32 } else { at as u32 };
            let end: u32 = start.saturating_add(1);
            diagnostics.push(Diagnostic::new(
                Span { start, end },
                "input is not valid UTF-8 (RFC 8259 \u{a7}8.1)",
            ));
        },
        None => {},
    }
    let mut pos: usize = 0;
    if input.len() >= 3 && input[0] == 0xef && input[1] == 0xbb && input[2] == 0xbf {
        lexemes.push(Lexeme { kind: SyntaxKind(kind::BOM), span: Span { start: 0, end: 3 } });
        pos = 3;
    }
    let ghost s = input@;
    let ghost d0 = diagnostics@.len();
    proof {
        assert(d0 == 0 <==> valid_utf8(s));
        if !valid_utf8(s) {
            let at = utf8.unwrap();
            assert(valid_up_to(s, at as int));
            let c = choose|i: int| valid_up_to(s, i);
            assert(valid_up_to(s, c));
            if c < at {
                assert(!valid_utf8(s.take(at as int)));
            } else if c > at {
                assert(!valid_utf8(s.take(c)));
            }
            assert(diag_view(diagnostics@) =~= utf8_diags(s));
        } else {
            assert(diag_view(diagnostics@) =~= utf8_diags(s));
        }
        assert(diag_view(diagnostics@) + lex_diags_from(s, body_start(s)) == json_lex_diags(s));
        if has_bom(s) {
            assert(lexemes@ == seq![mk_lexeme(kind::BOM, 0, 3)]);
        } else {
            assert(lexemes@ == Seq::<Lexeme>::empty());
            assert(lexemes@ + lex_from(s, 0) == lex_from(s, 0));
        }
    }
    while pos < input.len()
        invariant
            s == input@,
            s.len() <= u32::MAX,
            body_start(s) <= pos <= s.len(),
            lexemes@ + lex_from(s, pos as nat) == json_lexemes(s),
            diagnostics@.len() >= d0,
            (d0 == 0) == valid_utf8(s),
            clean_from(s, body_start(s)) == (clean_from(s, pos as nat) && diagnostics@.len() == d0),
            diag_view(diagnostics@) + lex_diags_from(s, pos as nat) == json_lex_diags(s),
        decreases s.len() - pos,
    {
        let start = pos;
        let byte = input[pos];
        proof {
            lemma_next_lexeme_advances(s, pos as nat);
            lemma_scan_bounds(s, pos as nat);
        }
        let ghost dbefore = diagnostics@.len();
        let ghost dv = diag_view(diagnostics@);
        let k: u16;
        if byte == 32 || byte == 9 || byte == 10 || byte == 13 {
            pos = ws_end_exec(input, pos);
            k = kind::WHITESPACE;
        } else if byte == 123 {
            pos = pos + 1;
            k = kind::L_BRACE;
        } else if byte == 125 {
            pos = pos + 1;
            k = kind::R_BRACE;
        } else if byte == 91 {
            pos = pos + 1;
            k = kind::L_BRACKET;
        } else if byte == 93 {
            pos = pos + 1;
            k = kind::R_BRACKET;
        } else if byte == 58 {
            pos = pos + 1;
            k = kind::COLON;
        } else if byte == 44 {
            pos = pos + 1;
            k = kind::COMMA;
        } else if byte == 34 {
            let r = lex_string(input, pos, &mut diagnostics);
            k = r.0;
            pos = r.1;
        } else if byte == 45 || (48 <= byte && byte <= 57) {
            let r = lex_number(input, pos, &mut diagnostics);
            k = r.0;
            pos = r.1;
        } else if byte == 116 {
            let w: [u8; 4] = [116, 114, 117, 101];
            let r = lex_literal(input, pos, &w, kind::TRUE, &mut diagnostics);
            proof { assert(w@ == seq![116u8, 114, 117, 101]); }
            k = r.0;
            pos = r.1;
        } else if byte == 102 {
            let w: [u8; 5] = [102, 97, 108, 115, 101];
            let r = lex_literal(input, pos, &w, kind::FALSE, &mut diagnostics);
            proof { assert(w@ == seq![102u8, 97, 108, 115, 101]); }
            k = r.0;
            pos = r.1;
        } else if byte == 110 {
            let w: [u8; 4] = [110, 117, 108, 108];
            let r = lex_literal(input, pos, &w, kind::NULL, &mut diagnostics);
            proof { assert(w@ == seq![110u8, 117, 108, 108]); }
            k = r.0;
            pos = r.1;
        } else {
            pos = pos + 1;
            let mut m = string_of("unexpected byte ");
            push_hex_byte(&mut m, byte);
            push_diag(&mut diagnostics, start, pos, m);
            k = kind::ERROR;
        }
        proof {
            let r = next_lexeme(s, start as nat);
            assert(r.0 == k && r.1 == pos);
            assert((diagnostics@.len() == dbefore) == r.2);
            assert(diag_view(diagnostics@) == dv + lexeme_diags(s, start as nat));
            assert(lex_diags_from(s, start as nat) == lexeme_diags(s, start as nat) + lex_diags_from(s, pos as nat));
            vstd::seq_lib::lemma_concat_associative(dv, lexeme_diags(s, start as nat), lex_diags_from(s, pos as nat));
        }
        let lexeme = Lexeme { kind: SyntaxKind(k), span: Span { start: start as u32, end: pos as u32 } };
        let ghost before = lexemes@;
        lexemes.push(lexeme);
        proof {
            assert(lex_from(s, start as nat) == seq![mk_lexeme(k, start as nat, pos as nat)] + lex_from(s, pos as nat));
            assert(lexemes@ == before.push(lexeme));
            assert(lexeme == mk_lexeme(k, start as nat, pos as nat));
            vstd::seq_lib::lemma_concat_associative(before, seq![lexeme], lex_from(s, pos as nat));
            assert(before.push(lexeme) == before + seq![lexeme]);
        }
    }
    proof {
        assert(lex_from(s, pos as nat) == Seq::<Lexeme>::empty());
        assert(lexemes@ + Seq::<Lexeme>::empty() == lexemes@);
        assert(diag_view(diagnostics@) + Seq::<Diag>::empty() =~= diag_view(diagnostics@));
    }
    Lexed { lexemes, diagnostics }
}

} // verus!

verus! {

// --- coverage ---------------------------------------------------------------

/// The bytes a lexeme covers, or nothing when its span is out of range.
pub open spec fn lexeme_bytes(s: Seq<u8>, l: Lexeme) -> Seq<u8> {
    if l.span.start <= l.span.end && l.span.end <= s.len() {
        s.subrange(l.span.start as int, l.span.end as int)
    } else {
        Seq::empty()
    }
}

/// The concatenated bytes of a sequence of lexemes.
pub open spec fn lexemes_text(s: Seq<u8>, ls: Seq<Lexeme>) -> Seq<u8>
    decreases ls.len(),
{
    if ls.len() == 0 {
        Seq::empty()
    } else {
        lexemes_text(s, ls.drop_last()) + lexeme_bytes(s, ls.last())
    }
}

/// Concatenation distributes over lexeme sequences.
pub proof fn lemma_lexemes_text_append(s: Seq<u8>, a: Seq<Lexeme>, b: Seq<Lexeme>)
    ensures
        lexemes_text(s, a + b) == lexemes_text(s, a) + lexemes_text(s, b),
    decreases b.len(),
{
    if b.len() == 0 {
        assert(a + b == a);
        assert(lexemes_text(s, a) + Seq::<u8>::empty() == lexemes_text(s, a));
    } else {
        assert((a + b).drop_last() == a + b.drop_last());
        lemma_lexemes_text_append(s, a, b.drop_last());
        vstd::seq_lib::lemma_concat_associative(lexemes_text(s, a), lexemes_text(s, b.drop_last()), lexeme_bytes(s, b.last()));
    }
}

proof fn lemma_lexemes_text_single(s: Seq<u8>, l: Lexeme)
    ensures
        lexemes_text(s, seq![l]) == lexeme_bytes(s, l),
{
    let q = seq![l];
    assert(q.drop_last() == Seq::<Lexeme>::empty());
    assert(q.last() == l);
    assert(lexemes_text(s, Seq::<Lexeme>::empty()) == Seq::<u8>::empty());
    assert(Seq::<u8>::empty() + lexeme_bytes(s, l) == lexeme_bytes(s, l));
}

/// Lexing from `i` covers exactly the bytes from `i` to the end.
pub proof fn lemma_lex_from_covers(s: Seq<u8>, i: nat)
    requires
        i <= s.len(),
        s.len() <= u32::MAX,
    ensures
        lexemes_text(s, lex_from(s, i)) == s.subrange(i as int, s.len() as int),
    decreases s.len() - i,
{
    if i < s.len() {
        lemma_next_lexeme_advances(s, i);
        let r = next_lexeme(s, i);
        let x = mk_lexeme(r.0, i, r.1);
        lemma_lex_from_covers(s, r.1);
        lemma_lexemes_text_append(s, seq![x], lex_from(s, r.1));
        lemma_lexemes_text_single(s, x);
        assert(s.subrange(i as int, r.1 as int) + s.subrange(r.1 as int, s.len() as int) == s.subrange(i as int, s.len() as int));
    } else {
        assert(s.subrange(i as int, s.len() as int) == Seq::<u8>::empty());
    }
}

/// The lexemes of a JSON text cover it exactly, byte for byte, in order.
pub proof fn lemma_json_lexemes_cover(s: Seq<u8>)
    requires
        s.len() <= u32::MAX,
    ensures
        lexemes_text(s, json_lexemes(s)) == s,
{
    if has_bom(s) {
        lemma_lex_from_covers(s, 3);
        let b = mk_lexeme(kind::BOM, 0, 3);
        lemma_lexemes_text_append(s, seq![b], lex_from(s, 3));
        lemma_lexemes_text_single(s, b);
        assert(s.subrange(0, 3) + s.subrange(3, s.len() as int) == s);
    } else {
        lemma_lex_from_covers(s, 0);
        assert(s.subrange(0, s.len() as int) == s);
    }
}

// --- the grammar --------------------------------------------------------------

/// What the grammar permits next.
#[derive(Clone, Copy, PartialEq, Eq, Structural, Debug)]
pub enum Expect {
    /// Any value.
    Value,
    /// A value, or `]` closing an empty array.
    ValueOrEndArray,
    /// A key, or `}` closing an empty object.
    KeyOrEndObject,
    /// A key.
    Key,
    /// `:` after a key.
    Colon,
    /// `,` or the close of the innermost container.
    CommaOrEnd,
    /// Nothing: the document's one value is complete.
    Eof,
}

/// An open container.
#[derive(Clone, Copy, PartialEq, Eq, Structural, Debug)]
pub enum Container {
    /// `{`
    Object,
    /// `[`
    Array,
}

/// One step of the grammar: where it goes next, or why it cannot.
pub enum Step {
    /// The lexeme fits; the next expectation and container stack.
    Go(Expect, Seq<Container>),
    /// The lexeme does not fit, with the message that says why.
    Fail(Seq<char>),
}

/// Where a grammar walk over lexemes ends.
pub enum Walk {
    /// A lexeme the lexer already rejected was reached: nothing more to say.
    Silent,
    /// The lexeme at this index does not fit, for this reason.
    Reject(nat, Seq<char>),
    /// Every lexeme fit; the final expectation and container stack.
    Done(Expect, Seq<Container>),
}

/// After a complete value: end of input at top level, else a comma or a close.
pub open spec fn after_value(st: Seq<Container>) -> Expect {
    if st.len() == 0 { Expect::Eof } else { Expect::CommaOrEnd }
}

/// The stack with its innermost container closed (unchanged when empty).
pub open spec fn pop(st: Seq<Container>) -> Seq<Container> {
    if st.len() == 0 { st } else { st.drop_last() }
}

/// A scalar value's kind.
pub open spec fn is_scalar_kind(k: u16) -> bool {
    k == kind::STRING || k == kind::NUMBER || k == kind::TRUE || k == kind::FALSE || k == kind::NULL
}

/// How a lexeme kind is named in a message.
pub open spec fn kind_name(k: u16) -> Seq<char> {
    if k == kind::L_BRACE { "`{`"@ }
    else if k == kind::R_BRACE { "`}`"@ }
    else if k == kind::L_BRACKET { "`[`"@ }
    else if k == kind::R_BRACKET { "`]`"@ }
    else if k == kind::COLON { "`:`"@ }
    else if k == kind::COMMA { "`,`"@ }
    else if k == kind::STRING { "a string"@ }
    else if k == kind::NUMBER { "a number"@ }
    else if k == kind::TRUE { "`true`"@ }
    else if k == kind::FALSE { "`false`"@ }
    else if k == kind::NULL { "`null`"@ }
    else { "unexpected input"@ }
}

/// `expected <what>, found <name>`.
pub open spec fn describe_spec(found: u16, expected: Seq<char>) -> Seq<char> {
    "expected "@ + expected + ", found "@ + kind_name(found)
}

/// The message for a second top-level value.
pub open spec fn second_value_message() -> Seq<char> {
    "a JSON document holds exactly one value; found a second one"@
}

/// RFC 8259's grammar as a pushdown step over significant lexeme kinds.
pub open spec fn step(e: Expect, st: Seq<Container>, k: u16) -> Step {
    match e {
        Expect::Value | Expect::ValueOrEndArray => {
            if k == kind::L_BRACE {
                Step::Go(Expect::KeyOrEndObject, st.push(Container::Object))
            } else if k == kind::L_BRACKET {
                Step::Go(Expect::ValueOrEndArray, st.push(Container::Array))
            } else if k == kind::R_BRACKET && e == Expect::ValueOrEndArray {
                Step::Go(after_value(pop(st)), pop(st))
            } else if is_scalar_kind(k) {
                Step::Go(after_value(st), st)
            } else {
                Step::Fail(describe_spec(k, "a value"@))
            }
        },
        Expect::KeyOrEndObject => {
            if k == kind::R_BRACE {
                Step::Go(after_value(pop(st)), pop(st))
            } else if k == kind::STRING {
                Step::Go(Expect::Colon, st)
            } else {
                Step::Fail(describe_spec(k, "a string key or `}`"@))
            }
        },
        Expect::Key => {
            if k == kind::STRING {
                Step::Go(Expect::Colon, st)
            } else {
                Step::Fail(describe_spec(k, "a string key"@))
            }
        },
        Expect::Colon => {
            if k == kind::COLON {
                Step::Go(Expect::Value, st)
            } else {
                Step::Fail(describe_spec(k, "`:`"@))
            }
        },
        Expect::CommaOrEnd => {
            if st.len() > 0 && k == kind::COMMA && st.last() == Container::Object {
                Step::Go(Expect::Key, st)
            } else if st.len() > 0 && k == kind::COMMA && st.last() == Container::Array {
                Step::Go(Expect::Value, st)
            } else if st.len() > 0 && ((k == kind::R_BRACE && st.last() == Container::Object)
                || (k == kind::R_BRACKET && st.last() == Container::Array)) {
                Step::Go(after_value(pop(st)), pop(st))
            } else {
                Step::Fail(describe_spec(k, "`,`, `}` or `]`"@))
            }
        },
        Expect::Eof => Step::Fail(second_value_message()),
    }
}

/// Walk the grammar over lexemes `i..`, skipping trivia.
pub open spec fn walk(ls: Seq<Lexeme>, i: nat, e: Expect, st: Seq<Container>) -> Walk
    decreases ls.len() - i,
{
    if i >= ls.len() {
        Walk::Done(e, st)
    } else {
        let k = ls[i as int].kind.0;
        if is_trivia_kind(k) {
            walk(ls, i + 1, e, st)
        } else if k == kind::ERROR {
            Walk::Silent
        } else {
            match step(e, st, k) {
                Step::Go(e2, s2) => walk(ls, i + 1, e2, s2),
                Step::Fail(m) => Walk::Reject(i, m),
            }
        }
    }
}

/// The zero-width span at the end of the last lexeme.
pub open spec fn end_span(ls: Seq<Lexeme>) -> Span {
    if ls.len() == 0 {
        Span { start: 0, end: 0 }
    } else {
        Span { start: ls.last().span.end, end: ls.last().span.end }
    }
}

/// The message for input that ends inside containers.
pub open spec fn open_message(n: nat) -> Seq<char> {
    "input ends with "@ + decimal(n) + " container(s) still open"@
}

/// The message for input that ends before any complete value.
pub open spec fn incomplete_message() -> Seq<char> {
    "input ends before a complete value (an empty document is not JSON)"@
}

/// The first grammatical problem of a lexeme stream and where it is, if any.
pub open spec fn json_verdict(ls: Seq<Lexeme>) -> Option<(Span, Seq<char>)> {
    match walk(ls, 0, Expect::Value, Seq::empty()) {
        Walk::Silent => None,
        Walk::Reject(i, m) => Some((ls[i as int].span, m)),
        Walk::Done(e, st) => {
            if st.len() > 0 {
                Some((end_span(ls), open_message(st.len())))
            } else if e != Expect::Eof {
                Some((end_span(ls), incomplete_message()))
            } else {
                None
            }
        },
    }
}

// --- bracket matching -----------------------------------------------------------

/// The brackets still open after the first `n` lexemes, innermost last, or
/// `None` once a `}` or `]` closes nothing or closes a bracket of the other
/// kind.
pub open spec fn bracket_stack(ls: Seq<Lexeme>, n: int) -> Option<Seq<u16>>
    decreases n,
{
    if n <= 0 || n > ls.len() {
        Some(Seq::empty())
    } else {
        match bracket_stack(ls, n - 1) {
            None => None,
            Some(st) => {
                let k = ls[n - 1].kind.0;
                if k == kind::L_BRACE || k == kind::L_BRACKET {
                    Some(st.push(k))
                } else if k == kind::R_BRACE {
                    if st.len() > 0 && st.last() == kind::L_BRACE { Some(st.drop_last()) } else { None }
                } else if k == kind::R_BRACKET {
                    if st.len() > 0 && st.last() == kind::L_BRACKET { Some(st.drop_last()) } else { None }
                } else {
                    Some(st)
                }
            },
        }
    }
}

/// Whether the brackets of a lexeme stream pair up: each `}` closes an open
/// `{`, each `]` an open `[`, and none is left open.
pub open spec fn brackets_match(ls: Seq<Lexeme>) -> bool {
    bracket_stack(ls, ls.len() as int) == Some(Seq::<u16>::empty())
}

/// Open containers as the brackets that opened them.
spec fn opened_by(st: Seq<Container>) -> Seq<u16> {
    Seq::new(st.len(), |m: int| if st[m] == Container::Object { kind::L_BRACE } else { kind::L_BRACKET })
}

/// What each expectation says of the open containers.
spec fn expect_fits(e: Expect, st: Seq<Container>) -> bool {
    &&& e == Expect::ValueOrEndArray ==> st.len() > 0 && st.last() == Container::Array
    &&& e == Expect::KeyOrEndObject ==> st.len() > 0 && st.last() == Container::Object
    &&& e == Expect::CommaOrEnd ==> st.len() > 0
}

proof fn lemma_step_brackets(e: Expect, st: Seq<Container>, k: u16, open: Seq<u16>)
    requires
        expect_fits(e, st),
        open == opened_by(st),
        !is_trivia_kind(k),
        k != kind::ERROR,
    ensures
        step(e, st, k) matches Step::Go(e2, s2) ==> expect_fits(e2, s2) && ({
            let next = if k == kind::L_BRACE || k == kind::L_BRACKET {
                Some(open.push(k))
            } else if k == kind::R_BRACE {
                if open.len() > 0 && open.last() == kind::L_BRACE { Some(open.drop_last()) } else { None }
            } else if k == kind::R_BRACKET {
                if open.len() > 0 && open.last() == kind::L_BRACKET { Some(open.drop_last()) } else { None }
            } else {
                Some(open)
            };
            next == Some(opened_by(s2))
        }),
{
    assert(opened_by(st.push(Container::Object)) =~= open.push(kind::L_BRACE));
    assert(opened_by(st.push(Container::Array)) =~= open.push(kind::L_BRACKET));
    if st.len() > 0 {
        assert(opened_by(st.drop_last()) =~= open.drop_last());
        assert(open.last() == (if st.last() == Container::Object { kind::L_BRACE } else { kind::L_BRACKET }));
    }
}

proof fn lemma_walk_brackets(ls: Seq<Lexeme>, i: nat, e: Expect, st: Seq<Container>)
    requires
        i <= ls.len(),
        expect_fits(e, st),
        bracket_stack(ls, i as int) == Some(opened_by(st)),
        forall|m: int| i <= m < ls.len() ==> (#[trigger] ls[m]).kind.0 != kind::ERROR,
    ensures
        !(walk(ls, i, e, st) is Silent),
        walk(ls, i, e, st) matches Walk::Done(e2, s2) ==> bracket_stack(ls, ls.len() as int) == Some(opened_by(s2)),
    decreases ls.len() - i,
{
    if i < ls.len() {
        let k = ls[i as int].kind.0;
        if is_trivia_kind(k) {
            assert(bracket_stack(ls, (i + 1) as int) == Some(opened_by(st)));
            lemma_walk_brackets(ls, i + 1, e, st);
        } else {
            lemma_step_brackets(e, st, k, opened_by(st));
            match step(e, st, k) {
                Step::Go(e2, s2) => {
                    assert(bracket_stack(ls, (i + 1) as int) == Some(opened_by(s2)));
                    lemma_walk_brackets(ls, i + 1, e2, s2);
                },
                Step::Fail(_) => {},
            }
        }
    }
}

/// A lexeme the lexer finds clean is never an error lexeme.
proof fn lemma_clean_has_no_error(s: Seq<u8>, i: nat)
    requires
        clean_from(s, i),
    ensures
        forall|m: int| 0 <= m < lex_from(s, i).len() ==> (#[trigger] lex_from(s, i)[m]).kind.0 != kind::ERROR,
    decreases s.len() - i,
{
    if i < s.len() {
        let r = next_lexeme(s, i);
        if r.1 > i && r.1 <= s.len() {
            lemma_clean_has_no_error(s, r.1);
            assert(r.0 != kind::ERROR);
            let t = lex_from(s, r.1);
            assert forall|m: int| 0 <= m < lex_from(s, i).len() implies (#[trigger] lex_from(s, i)[m]).kind.0 != kind::ERROR by {
                if m > 0 {
                    assert(lex_from(s, i)[m] == t[m - 1]);
                }
            }
        }
    }
}

/// What JSON accepts has matching brackets (RFC 8259's value grammar): each
/// `}` closes an open `{`, each `]` an open `[`, and nothing is left open.
pub proof fn lemma_accepted_brackets_match(s: Seq<u8>)
    requires
        json_accepts(s),
    ensures
        brackets_match(json_lexemes(s)),
{
    let ls = json_lexemes(s);
    lemma_clean_has_no_error(s, body_start(s));
    assert forall|m: int| 0 <= m < ls.len() implies (#[trigger] ls[m]).kind.0 != kind::ERROR by {
        if has_bom(s) {
            if m > 0 {
                assert(ls[m] == lex_from(s, 3)[m - 1]);
            }
        }
    }
    assert(opened_by(Seq::<Container>::empty()) =~= Seq::<u16>::empty());
    lemma_walk_brackets(ls, 0, Expect::Value, Seq::empty());
    match walk(ls, 0, Expect::Value, Seq::empty()) {
        Walk::Done(e, st) => {
            assert(st.len() == 0);
            assert(opened_by(st) =~= Seq::<u16>::empty());
        },
        _ => {},
    }
}

fn describe(found: u16, expected: &str) -> (m: String)
    ensures
        m@ == describe_spec(found, expected@),
{
    let mut out = string_of("expected ");
    out.append(expected);
    out.append(", found ");
    let name = if found == kind::L_BRACE { "`{`" }
        else if found == kind::R_BRACE { "`}`" }
        else if found == kind::L_BRACKET { "`[`" }
        else if found == kind::R_BRACKET { "`]`" }
        else if found == kind::COLON { "`:`" }
        else if found == kind::COMMA { "`,`" }
        else if found == kind::STRING { "a string" }
        else if found == kind::NUMBER { "a number" }
        else if found == kind::TRUE { "`true`" }
        else if found == kind::FALSE { "`false`" }
        else if found == kind::NULL { "`null`" }
        else { "unexpected input" };
    out.append(name);
    out
}

fn reject(span: Span, message: String) -> (d: Vec<Diagnostic>)
    ensures
        d@.len() == 1,
        d@[0].span == span,
        d@[0].message@ == message@,
{
    let mut v = Vec::new();
    v.push(Diagnostic { span, message });
    v
}

fn after_value_exec(stack: &Vec<Container>) -> (e: Expect)
    ensures
        e == after_value(stack@),
{
    if stack.len() == 0 { Expect::Eof } else { Expect::CommaOrEnd }
}

fn pop_exec(stack: &mut Vec<Container>)
    ensures
        final(stack)@ == pop(old(stack)@),
{
    if stack.len() > 0 {
        let _ = stack.pop();
    }
}

/// Check RFC 8259's grammar over the significant lexemes, iteratively, and
/// report the first problem with its span.
pub fn validate(lexed: &Lexed) -> (r: Vec<Diagnostic>)
    ensures
        ({
            let v = json_verdict(lexed.lexemes@);
            &&& r@.len() == (if v is Some { 1nat } else { 0nat })
            &&& v matches Some(p) ==> r@[0].span == p.0 && r@[0].message@ == p.1
        }),
{
    let ls = &lexed.lexemes;
    let mut stack: Vec<Container> = Vec::new();
    let mut expect = Expect::Value;
    let mut i: usize = 0;
    let ghost whole = walk(ls@, 0, Expect::Value, Seq::empty());
    while i < ls.len()
        invariant
            i <= ls@.len(),
            ls@ == lexed.lexemes@,
            whole == walk(ls@, 0, Expect::Value, Seq::empty()),
            walk(ls@, i as nat, expect, stack@) == whole,
        decreases ls@.len() - i,
    {
        let k = ls[i].kind.0;
        if k == kind::WHITESPACE || k == kind::BOM {
            i = i + 1;
            continue;
        }
        if k == kind::ERROR {
            return Vec::new();
        }
        let ghost st0 = stack@;
        let ghost e0 = expect;
        let span = ls[i].span;
        match expect {
            Expect::Value | Expect::ValueOrEndArray => {
                if k == kind::L_BRACE {
                    stack.push(Container::Object);
                    expect = Expect::KeyOrEndObject;
                } else if k == kind::L_BRACKET {
                    stack.push(Container::Array);
                    expect = Expect::ValueOrEndArray;
                } else if k == kind::R_BRACKET && expect == Expect::ValueOrEndArray {
                    pop_exec(&mut stack);
                    expect = after_value_exec(&stack);
                } else if k == kind::STRING || k == kind::NUMBER || k == kind::TRUE || k == kind::FALSE || k == kind::NULL {
                    expect = after_value_exec(&stack);
                } else {
                    return reject(span, describe(k, "a value"));
                }
            },
            Expect::KeyOrEndObject => {
                if k == kind::R_BRACE {
                    pop_exec(&mut stack);
                    expect = after_value_exec(&stack);
                } else if k == kind::STRING {
                    expect = Expect::Colon;
                } else {
                    return reject(span, describe(k, "a string key or `}`"));
                }
            },
            Expect::Key => {
                if k != kind::STRING {
                    return reject(span, describe(k, "a string key"));
                }
                expect = Expect::Colon;
            },
            Expect::Colon => {
                if k != kind::COLON {
                    return reject(span, describe(k, "`:`"));
                }
                expect = Expect::Value;
            },
            Expect::CommaOrEnd => {
                let top: Option<Container> = if stack.len() > 0 { Some(stack[stack.len() - 1]) } else { None };
                match top {
                    Some(Container::Object) if k == kind::COMMA => {
                        expect = Expect::Key;
                    },
                    Some(Container::Array) if k == kind::COMMA => {
                        expect = Expect::Value;
                    },
                    Some(Container::Object) if k == kind::R_BRACE => {
                        pop_exec(&mut stack);
                        expect = after_value_exec(&stack);
                    },
                    Some(Container::Array) if k == kind::R_BRACKET => {
                        pop_exec(&mut stack);
                        expect = after_value_exec(&stack);
                    },
                    _ => {
                        return reject(span, describe(k, "`,`, `}` or `]`"));
                    },
                }
            },
            Expect::Eof => {
                return reject(span, string_of("a JSON document holds exactly one value; found a second one"));
            },
        }
        proof {
            assert(step(e0, st0, k) == Step::Go(expect, stack@));
        }
        i = i + 1;
    }
    let end: Span = if ls.len() == 0 {
        Span { start: 0, end: 0 }
    } else {
        let e = ls[ls.len() - 1].span.end;
        Span { start: e, end: e }
    };
    if stack.len() > 0 {
        let mut m = string_of("input ends with ");
        push_decimal(&mut m, stack.len() as u64);
        m.append(" container(s) still open");
        return reject(end, m);
    } else if expect != Expect::Eof {
        return reject(end, string_of("input ends before a complete value (an empty document is not JSON)"));
    }
    Vec::new()
}

} // verus!

verus! {

// --- the tree -----------------------------------------------------------------

/// An open node while building: its kind code and its children so far.
pub type Frame = (u16, Vec<GreenChild>);

/// The text of a stack of open nodes, outermost first.
pub open spec fn frames_text(f: Seq<Frame>) -> Seq<u8>
    decreases f.len(),
{
    if f.len() == 0 {
        Seq::empty()
    } else {
        frames_text(f.drop_last()) + seq_text(f.last().1@)
    }
}

/// The tokens of a stack of open nodes, outermost first.
pub open spec fn frames_leaves(f: Seq<Frame>) -> Seq<(SyntaxKind, Seq<u8>)>
    decreases f.len(),
{
    if f.len() == 0 {
        Seq::empty()
    } else {
        frames_leaves(f.drop_last()) + seq_leaves(f.last().1@)
    }
}

/// Each of `d`, `k` deeper.
pub open spec fn shifted(d: Seq<int>, k: int) -> Seq<int> {
    Seq::new(d.len(), |i: int| d[i] + k)
}

/// How deep each token of a stack of open nodes lies in the finished tree,
/// outermost first: the tokens of the node at position `k` of the stack lie
/// `k` deeper than within it.
pub open spec fn frames_depths(f: Seq<Frame>) -> Seq<int>
    decreases f.len(),
{
    if f.len() == 0 {
        Seq::empty()
    } else {
        frames_depths(f.drop_last()) + shifted(seq_depths(f.last().1@), f.len() - 1)
    }
}

/// The depths of an optional child.
pub open spec fn opt_depths(c: &Option<GreenChild>) -> Seq<int> {
    match c {
        Some(c) => child_depths(*c),
        None => Seq::empty(),
    }
}

/// Whether a lexeme kind opens an object or an array.
pub open spec fn opens(k: u16) -> bool {
    k == kind::L_BRACE || k == kind::L_BRACKET
}

/// Whether a lexeme kind closes an object or an array.
pub open spec fn closes(k: u16) -> bool {
    k == kind::R_BRACE || k == kind::R_BRACKET
}

/// How many objects and arrays are open after the first `n` lexemes: an
/// opener opens one, a closer closes the innermost when one is open.
pub open spec fn open_depth(ls: Seq<Lexeme>, n: int) -> int
    decreases n,
{
    if n <= 0 || n > ls.len() {
        0
    } else {
        let d = open_depth(ls, n - 1);
        let k = ls[n - 1].kind.0;
        if opens(k) {
            d + 1
        } else if closes(k) && d > 0 {
            d - 1
        } else {
            d
        }
    }
}

/// How deep lexeme `i` lies in the tree: within every object and array open
/// before it, and, for an opener, within the one it opens; a closer lies
/// within the one it closes.
pub open spec fn lexeme_depth(ls: Seq<Lexeme>, i: int) -> int {
    if opens(ls[i].kind.0) { open_depth(ls, i) + 1 } else { open_depth(ls, i) }
}

/// The depths of the first `n` lexemes.
pub open spec fn json_depths(ls: Seq<Lexeme>, n: int) -> Seq<int> {
    Seq::new(n as nat, |i: int| lexeme_depth(ls, i))
}

proof fn lemma_shift_concat(a: Seq<int>, b: Seq<int>, k: int)
    ensures
        shifted(a + b, k) == shifted(a, k) + shifted(b, k),
{
    assert(shifted(a + b, k) =~= shifted(a, k) + shifted(b, k));
}

proof fn lemma_shift_deeper(d: Seq<int>, k: int)
    ensures
        shifted(deeper(d), k) == shifted(d, k + 1),
{
    assert(shifted(deeper(d), k) =~= shifted(d, k + 1));
}

proof fn lemma_seq_depths_push(s: Seq<GreenChild>, c: GreenChild)
    ensures
        seq_depths(s.push(c)) == seq_depths(s) + child_depths(c),
{
    assert(s.push(c).drop_last() == s);
}

/// Which tokens of a stack of open nodes open a node, outermost first: the
/// first child of each open object or array, which is its opening token.
pub open spec fn frames_starts(f: Seq<Frame>) -> Seq<Option<u16>>
    decreases f.len(),
{
    if f.len() == 0 {
        Seq::empty()
    } else if f.len() == 1 {
        seq_starts(f.last().1@)
    } else {
        frames_starts(f.drop_last()) + first_marked(f.last().1@, f.last().0)
    }
}

/// Whether every open object or array on the stack begins with a token.
pub open spec fn frames_open_with_token(f: Seq<Frame>) -> bool {
    forall|k: int| 1 <= k < f.len() ==> (#[trigger] f[k]).1@.len() > 0 && f[k].1@[0] is Token
}

/// The node openings of an optional child.
pub open spec fn opt_starts(c: &Option<GreenChild>) -> Seq<Option<u16>> {
    match c {
        Some(c) => child_starts(*c),
        None => Seq::empty(),
    }
}

/// The kind code of the node a lexeme kind opens: an object for `{`, an
/// array for `[`, none for any other.
pub open spec fn opened_kind(k: u16) -> Option<u16> {
    if k == kind::L_BRACE {
        Some(kind::OBJECT)
    } else if k == kind::L_BRACKET {
        Some(kind::ARRAY)
    } else {
        None
    }
}

/// Which of the first `n` lexemes open an object or an array, and which.
pub open spec fn json_starts(ls: Seq<Lexeme>, n: int) -> Seq<Option<u16>> {
    Seq::new(n as nat, |i: int| opened_kind(ls[i].kind.0))
}

proof fn lemma_seq_starts_push(s: Seq<GreenChild>, c: GreenChild)
    ensures
        seq_starts(s.push(c)) == seq_starts(s) + child_starts(c),
{
    assert(s.push(c).drop_last() == s);
}

proof fn lemma_seq_starts_leading_token(s: Seq<GreenChild>)
    requires
        s.len() > 0,
        s[0] is Token,
    ensures
        seq_starts(s).len() >= 1,
    decreases s.len(),
{
    if s.len() > 1 {
        assert(s.drop_last()[0] == s[0]);
        lemma_seq_starts_leading_token(s.drop_last());
    } else {
        assert(s.drop_last().len() == 0);
    }
}

proof fn lemma_first_marked_push(s: Seq<GreenChild>, c: GreenChild, k: u16)
    requires
        s.len() > 0,
        s[0] is Token,
    ensures
        first_marked(s.push(c), k) == first_marked(s, k) + child_starts(c),
{
    lemma_seq_starts_push(s, c);
    lemma_seq_starts_leading_token(s);
    assert(s.push(c)[0] == s[0]);
    assert(first_marked(s.push(c), k) =~= first_marked(s, k) + child_starts(c));
}

/// A lexeme as a tree token: its kind and the bytes it covers.
pub open spec fn lexeme_leaf(s: Seq<u8>, l: Lexeme) -> (SyntaxKind, Seq<u8>) {
    (l.kind, lexeme_bytes(s, l))
}

/// Lexemes as tree tokens.
pub open spec fn lexemes_leaves(s: Seq<u8>, ls: Seq<Lexeme>) -> Seq<(SyntaxKind, Seq<u8>)> {
    Seq::new(ls.len(), |i: int| lexeme_leaf(s, ls[i]))
}

/// The tokens of an optional child.
pub open spec fn opt_leaves(c: &Option<GreenChild>) -> Seq<(SyntaxKind, Seq<u8>)> {
    match c {
        Some(c) => child_leaves(*c),
        None => Seq::empty(),
    }
}

/// Whether every child in every open node reports its true length.
pub open spec fn frames_faithful(f: Seq<Frame>) -> bool {
    forall|i: int| 0 <= i < f.len() ==> all_faithful(#[trigger] f[i].1@)
}

/// A token child holding a lexeme's bytes (nothing, when its span is out of range).
fn token_child(input: &[u8], l: Lexeme) -> (c: GreenChild)
    requires
        lexeme_bytes(input@, l).len() <= u32::MAX,
    ensures
        child_text(c) == lexeme_bytes(input@, l),
        child_leaves(c) == seq![lexeme_leaf(input@, l)],
        faithful(c),
        c is Token,
{
    let a = l.span.start as usize;
    let b = l.span.end as usize;
    let bytes: &[u8] = if a <= b && b <= input.len() { &input[a..b] } else { &input[0..0] };
    let c = GreenChild::Token(std::rc::Rc::new(GreenToken::new(l.kind, bytes)));
    proof {
        assert(child_text(c) == lexeme_bytes(input@, l));
        assert(child_leaves(c) =~= seq![lexeme_leaf(input@, l)]);
    }
    c
}

proof fn lemma_push_faithful(s: Seq<GreenChild>, c: GreenChild)
    requires
        all_faithful(s),
        faithful(c),
    ensures
        all_faithful(s.push(c)),
        seq_text(s.push(c)) == seq_text(s) + child_text(c),
        seq_leaves(s.push(c)) == seq_leaves(s) + child_leaves(c),
{
    assert forall|i: int| 0 <= i < s.push(c).len() implies #[trigger] faithful(s.push(c)[i]) by {
        if i < s.len() {
            assert(s.push(c)[i] == s[i]);
        }
    }
    assert(s.push(c).drop_last() == s);
}

/// Append a child to the innermost open node.
fn push_to_top(stack: &mut Vec<Frame>, c: GreenChild)
    requires
        old(stack)@.len() > 0,
        frames_faithful(old(stack)@),
        faithful(c),
    ensures
        final(stack)@.len() == old(stack)@.len(),
        frames_faithful(final(stack)@),
        frames_text(final(stack)@) == frames_text(old(stack)@) + child_text(c),
        frames_leaves(final(stack)@) == frames_leaves(old(stack)@) + child_leaves(c),
        frames_depths(final(stack)@) == frames_depths(old(stack)@) + shifted(child_depths(c), old(stack)@.len() - 1),
        frames_open_with_token(old(stack)@) ==> frames_open_with_token(final(stack)@)
            && frames_starts(final(stack)@) == frames_starts(old(stack)@) + child_starts(c),
        final(stack)@.len() > 0 && final(stack)@.last().0 == old(stack)@.last().0,
        final(stack)@[0].0 == old(stack)@[0].0,
{
    let ghost f0 = stack@;
    let (k, mut children) = stack.pop().unwrap();
    proof {
        assert(stack@ == f0.drop_last());
        assert(all_faithful(f0[f0.len() - 1].1@));
        lemma_push_faithful(children@, c);
    }
    children.push(c);
    stack.push((k, children));
    proof {
        let f1 = stack@;
        assert(f1.drop_last() == f0.drop_last());
        assert forall|i: int| 0 <= i < f1.len() implies all_faithful(#[trigger] f1[i].1@) by {
            if i < f1.len() - 1 {
                assert(f1[i] == f0[i]);
            }
        }
        vstd::seq_lib::lemma_concat_associative(frames_text(f0.drop_last()), seq_text(f0.last().1@), child_text(c));
        vstd::seq_lib::lemma_concat_associative(frames_leaves(f0.drop_last()), seq_leaves(f0.last().1@), child_leaves(c));
        lemma_seq_depths_push(f0.last().1@, c);
        lemma_shift_concat(seq_depths(f0.last().1@), child_depths(c), f0.len() - 1);
        vstd::seq_lib::lemma_concat_associative(frames_depths(f0.drop_last()), shifted(seq_depths(f0.last().1@), f0.len() - 1),
            shifted(child_depths(c), f0.len() - 1));
        if f1.len() > 1 {
            assert(f1[0] == f0[0]);
        }
        if frames_open_with_token(f0) {
            let top = f0.last().1@;
            lemma_seq_starts_push(top, c);
            assert(f1.last().1@ == top.push(c));
            if f0.len() > 1 {
                assert(f0[f0.len() - 1] == f0.last());
                lemma_first_marked_push(top, c, f0.last().0);
                vstd::seq_lib::lemma_concat_associative(frames_starts(f0.drop_last()), first_marked(top, f0.last().0), child_starts(c));
                assert(top.push(c)[0] == top[0]);
            }
            assert forall|k: int| 1 <= k < f1.len() implies (#[trigger] f1[k]).1@.len() > 0 && f1[k].1@[0] is Token by {
                if k < f1.len() - 1 {
                    assert(f1[k] == f0[k]);
                } else {
                    assert(f0[k] == f0.last());
                    assert(f1[k].1@ == top.push(c));
                    assert(top.push(c)[0] == top[0]);
                }
            }
        }
    }
}

/// The bytes of an optional child.
pub open spec fn opt_text(c: &Option<GreenChild>) -> Seq<u8> {
    match c {
        Some(c) => child_text(*c),
        None => Seq::empty(),
    }
}

/// Close the innermost open node, appending `last` to it first, and attach
/// the finished node to its parent.
fn close_top(stack: &mut Vec<Frame>, last: Option<GreenChild>)
    requires
        old(stack)@.len() > 1,
        frames_faithful(old(stack)@),
        last matches Some(c) ==> faithful(c),
        frames_text(old(stack)@).len() + opt_text(&last).len() <= u32::MAX,
    ensures
        final(stack)@.len() + 1 == old(stack)@.len(),
        frames_faithful(final(stack)@),
        frames_text(final(stack)@) == frames_text(old(stack)@) + opt_text(&last),
        frames_leaves(final(stack)@) == frames_leaves(old(stack)@) + opt_leaves(&last),
        frames_depths(final(stack)@) == frames_depths(old(stack)@) + shifted(opt_depths(&last), old(stack)@.len() - 1),
        frames_open_with_token(old(stack)@) ==> frames_open_with_token(final(stack)@)
            && frames_starts(final(stack)@) == frames_starts(old(stack)@) + opt_starts(&last),
        final(stack)@.last().0 == old(stack)@[old(stack)@.len() - 2].0,
        final(stack)@[0].0 == old(stack)@[0].0,
{
    let ghost f0 = stack@;
    let (k, mut children) = stack.pop().unwrap();
    let ghost extra: Seq<u8> = opt_text(&last);
    let ghost extra_leaves = opt_leaves(&last);
    let ghost extra_depths = opt_depths(&last);
    let ghost extra_starts = opt_starts(&last);
    let ghost ch0 = children@;
    let ghost glast = last;
    proof {
        assert(stack@ == f0.drop_last());
        assert(all_faithful(f0[f0.len() - 1].1@));
    }
    match last {
        Some(c) => {
            proof {
                lemma_push_faithful(children@, c);
                lemma_seq_depths_push(children@, c);
            }
            children.push(c);
        },
        None => {
            proof {
                assert(seq_depths(children@) + Seq::<int>::empty() =~= seq_depths(children@));
                assert(seq_text(children@) + Seq::<u8>::empty() == seq_text(children@));
                assert(seq_leaves(children@) + Seq::<(SyntaxKind, Seq<u8>)>::empty() =~= seq_leaves(children@));
            }
        },
    }
    proof {
        lemma_faithful_sum(children@);
        assert(seq_text(children@) == seq_text(f0.last().1@) + extra);
        assert(frames_text(f0) == frames_text(f0.drop_last()) + seq_text(f0.last().1@));
        assert(seq_leaves(children@) == seq_leaves(f0.last().1@) + extra_leaves);
        assert(seq_depths(children@) == seq_depths(f0.last().1@) + extra_depths);
        if frames_open_with_token(f0) {
            assert(f0[f0.len() - 1] == f0.last());
            match glast {
                Some(c) => {
                    assert(children@ == ch0.push(c));
                    lemma_first_marked_push(ch0, c, k);
                },
                None => {
                    assert(first_marked(ch0, k) + Seq::<Option<u16>>::empty() =~= first_marked(ch0, k));
                },
            }
            assert(first_marked(children@, k) == first_marked(f0.last().1@, f0.last().0) + extra_starts);
        }
    }
    let node = GreenNode::new(SyntaxKind(k), children);
    let child = GreenChild::Node(std::rc::Rc::new(node));
    proof {
        assert(faithful(child));
        assert(frames_faithful(stack@)) by {
            assert forall|i: int| 0 <= i < stack@.len() implies all_faithful(#[trigger] stack@[i].1@) by {
                assert(stack@[i] == f0[i]);
            }
        }
        assert(stack@[0] == f0[0]);
    }
    push_to_top(stack, child);
    proof {
        vstd::seq_lib::lemma_concat_associative(frames_text(f0.drop_last()), seq_text(f0.last().1@), extra);
        vstd::seq_lib::lemma_concat_associative(frames_leaves(f0.drop_last()), seq_leaves(f0.last().1@), extra_leaves);
        let kk = f0.len() - 1;
        assert(child_depths(child) == deeper(node.depths()));
        lemma_shift_deeper(node.depths(), kk - 1);
        lemma_shift_concat(seq_depths(f0.last().1@), extra_depths, kk);
        vstd::seq_lib::lemma_concat_associative(frames_depths(f0.drop_last()), shifted(seq_depths(f0.last().1@), kk),
            shifted(extra_depths, kk));
        if frames_open_with_token(f0) {
            assert(frames_open_with_token(f0.drop_last())) by {
                assert forall|j: int| 1 <= j < f0.drop_last().len() implies (#[trigger] f0.drop_last()[j]).1@.len() > 0
                    && f0.drop_last()[j].1@[0] is Token by {
                    assert(f0.drop_last()[j] == f0[j]);
                }
            }
            assert(child_starts(child) == node.starts());
            assert(frames_starts(f0) == frames_starts(f0.drop_last()) + first_marked(f0.last().1@, f0.last().0));
            vstd::seq_lib::lemma_concat_associative(frames_starts(f0.drop_last()), first_marked(f0.last().1@, f0.last().0), extra_starts);
        }
    }
}

/// Build the green tree, in lexeme order, iteratively: one node per object
/// and array, whose first child is its opening token. Each token lies as deep
/// as the objects and arrays open around it ([`json_depths`]), and exactly the
/// openers are the first children of nodes, of the kind they open
/// ([`json_starts`]). Unbalanced closers stay tokens of the enclosing node and
/// unclosed nodes are closed at the end.
pub fn build(input: &[u8], lexed: &Lexed) -> (c: Cst)
    requires
        lexemes_text(input@, lexed.lexemes@).len() <= u32::MAX,
    ensures
        c.text() == lexemes_text(input@, lexed.lexemes@),
        c.root_node().kind_of() == SyntaxKind(kind::DOCUMENT),
        c.root_node().leaves() == lexemes_leaves(input@, lexed.lexemes@),
        c.root_node().depths() == json_depths(lexed.lexemes@, lexed.lexemes@.len() as int),
        seq_starts(c.root_node().kids()) == json_starts(lexed.lexemes@, lexed.lexemes@.len() as int),
{
    let ls = &lexed.lexemes;
    let mut stack: Vec<Frame> = Vec::new();
    stack.push((kind::DOCUMENT, Vec::new()));
    let ghost total = lexemes_text(input@, ls@);
    proof {
        assert(stack@.drop_last() == Seq::<Frame>::empty());
        assert(stack@[0].1@ == Seq::<GreenChild>::empty());
        assert(seq_text(Seq::<GreenChild>::empty()) == Seq::<u8>::empty());
        assert(frames_text(Seq::<Frame>::empty()) == Seq::<u8>::empty());
        assert(frames_text(stack@) == Seq::<u8>::empty() + Seq::<u8>::empty());
        assert(ls@.subrange(0, 0) == Seq::<Lexeme>::empty());
        assert(frames_faithful(stack@));
        assert(seq_leaves(Seq::<GreenChild>::empty()) =~= Seq::<(SyntaxKind, Seq<u8>)>::empty());
        assert(frames_leaves(Seq::<Frame>::empty()) =~= Seq::<(SyntaxKind, Seq<u8>)>::empty());
        assert(frames_leaves(stack@) =~= lexemes_leaves(input@, ls@.subrange(0, 0)));
        assert(seq_depths(Seq::<GreenChild>::empty()) =~= Seq::<int>::empty());
        assert(frames_depths(Seq::<Frame>::empty()) =~= Seq::<int>::empty());
        assert(frames_depths(stack@) =~= json_depths(ls@, 0));
        assert(seq_starts(Seq::<GreenChild>::empty()) =~= Seq::<Option<u16>>::empty());
        assert(frames_starts(stack@) =~= json_starts(ls@, 0));
    }
    let mut i: usize = 0;
    while i < ls.len()
        invariant
            i <= ls@.len(),
            ls@ == lexed.lexemes@,
            total == lexemes_text(input@, ls@),
            total.len() <= u32::MAX,
            stack@.len() >= 1,
            stack@[0].0 == kind::DOCUMENT,
            frames_faithful(stack@),
            frames_text(stack@) == lexemes_text(input@, ls@.subrange(0, i as int)),
            frames_leaves(stack@) == lexemes_leaves(input@, ls@.subrange(0, i as int)),
            stack@.len() == open_depth(ls@, i as int) + 1,
            frames_depths(stack@) == json_depths(ls@, i as int),
            frames_open_with_token(stack@),
            frames_starts(stack@) == json_starts(ls@, i as int),
        decreases ls@.len() - i,
    {
        let l = ls[i];
        proof {
            let pre = ls@.subrange(0, i as int);
            let post = ls@.subrange(i + 1, ls@.len() as int);
            assert(ls@ == pre + seq![l] + post);
            lemma_lexemes_text_append(input@, pre + seq![l], post);
            lemma_lexemes_text_append(input@, pre, seq![l]);
            lemma_lexemes_text_single(input@, l);
            assert(ls@.subrange(0, i + 1) == pre + seq![l]);
            assert(lexemes_leaves(input@, ls@.subrange(0, i + 1)) =~= lexemes_leaves(input@, pre) + seq![lexeme_leaf(input@, l)]);
        }
        let token = token_child(input, l);
        let k = l.kind.0;
        let ghost f0 = stack@;
        proof {
            assert(l == ls@[i as int]);
            assert(child_depths(token) == seq![0int]);
            assert(json_depths(ls@, i + 1) =~= json_depths(ls@, i as int).push(lexeme_depth(ls@, i as int)));
            assert(shifted(seq![0int], f0.len() - 1) =~= seq![f0.len() - 1]);
            assert(child_starts(token) == seq![None::<u16>]);
            assert(json_starts(ls@, i + 1) =~= json_starts(ls@, i as int).push(opened_kind(ls@[i as int].kind.0)));
        }
        if k == kind::L_BRACE || k == kind::L_BRACKET {
            let node_kind = if k == kind::L_BRACE { kind::OBJECT } else { kind::ARRAY };
            let mut children: Vec<GreenChild> = Vec::new();
            children.push(token);
            stack.push((node_kind, children));
            proof {
                assert(stack@.drop_last() == f0);
                lemma_push_faithful(Seq::<GreenChild>::empty(), token);
                assert(children@ == Seq::<GreenChild>::empty().push(token));
                assert(seq_text(Seq::<GreenChild>::empty()) == Seq::<u8>::empty());
                assert(Seq::<u8>::empty() + child_text(token) == child_text(token));
                assert forall|j: int| 0 <= j < stack@.len() implies all_faithful(#[trigger] stack@[j].1@) by {
                    if j < f0.len() {
                        assert(stack@[j] == f0[j]);
                    }
                }
                assert(stack@[0] == f0[0]);
                assert(stack@.last().1@ == seq![token]);
                assert(seq![token] =~= Seq::<GreenChild>::empty().push(token));
                lemma_seq_depths_push(Seq::<GreenChild>::empty(), token);
                assert(seq_depths(Seq::<GreenChild>::empty()) =~= Seq::<int>::empty());
                assert(seq_depths(seq![token]) =~= seq![0int]);
                assert(shifted(seq![0int], f0.len() as int) =~= seq![f0.len() as int]);
                assert(frames_depths(stack@) == frames_depths(f0) + shifted(seq_depths(seq![token]), f0.len() as int));
                lemma_seq_starts_push(Seq::<GreenChild>::empty(), token);
                assert(seq_starts(Seq::<GreenChild>::empty()) =~= Seq::<Option<u16>>::empty());
                assert(first_marked(seq![token], node_kind) =~= seq![Some(node_kind)]);
                assert(frames_starts(stack@) == frames_starts(f0) + first_marked(seq![token], node_kind));
                assert forall|j: int| 1 <= j < stack@.len() implies (#[trigger] stack@[j]).1@.len() > 0 && stack@[j].1@[0] is Token by {
                    if j < f0.len() {
                        assert(stack@[j] == f0[j]);
                    }
                }
            }
        } else if (k == kind::R_BRACE || k == kind::R_BRACKET) && stack.len() > 1 {
            close_top(&mut stack, Some(token));
        } else {
            push_to_top(&mut stack, token);
        }
        i = i + 1;
    }
    proof {
        assert(ls@.subrange(0, i as int) == ls@);
    }
    while stack.len() > 1
        invariant
            stack@.len() >= 1,
            stack@[0].0 == kind::DOCUMENT,
            frames_faithful(stack@),
            frames_text(stack@) == total,
            frames_leaves(stack@) == lexemes_leaves(input@, ls@),
            frames_depths(stack@) == json_depths(ls@, ls@.len() as int),
            frames_open_with_token(stack@),
            frames_starts(stack@) == json_starts(ls@, ls@.len() as int),
            total.len() <= u32::MAX,
        decreases stack@.len(),
    {
        let ghost f0 = stack@;
        close_top(&mut stack, None);
        proof {
            assert(frames_text(f0) + Seq::<u8>::empty() == frames_text(f0));
            assert(frames_leaves(f0) + Seq::<(SyntaxKind, Seq<u8>)>::empty() =~= frames_leaves(f0));
            assert(shifted(Seq::<int>::empty(), f0.len() - 1) =~= Seq::<int>::empty());
            assert(frames_depths(f0) + Seq::<int>::empty() =~= frames_depths(f0));
            assert(frames_starts(f0) + Seq::<Option<u16>>::empty() =~= frames_starts(f0));
        }
    }
    let ghost f0 = stack@;
    let (root_kind, children) = stack.pop().unwrap();
    proof {
        assert(f0.drop_last() == Seq::<Frame>::empty());
        assert(frames_text(f0) == Seq::<u8>::empty() + seq_text(children@));
        assert(Seq::<u8>::empty() + seq_text(children@) == seq_text(children@));
        assert(frames_leaves(f0) =~= seq_leaves(children@));
        assert(frames_depths(f0) =~= seq_depths(children@));
        assert(frames_starts(f0) == seq_starts(children@));
        assert(all_faithful(f0[0].1@));
        lemma_faithful_sum(children@);
    }
    let root = GreenNode::new(SyntaxKind(root_kind), children);
    Cst::new(std::rc::Rc::new(root))
}

} // verus!

verus! {

/// Whether `diags` are what JSON's parse refuses `input` with: the lexer's
/// diagnostics when it finds any, else the one grammatical problem.
pub open spec fn json_refuses(input: Seq<u8>, diags: Seq<Diagnostic>) -> bool {
    &&& !json_lex_clean(input) ==> diag_view(diags) == json_lex_diags(input)
    &&& json_lex_clean(input) ==> ({
        let v = json_verdict(json_lexemes(input));
        &&& diags.len() == 1
        &&& v matches Some(p) && diags[0].span == p.0 && diags[0].message@ == p.1
    })
}

/// Whether `input` is a JSON text: it lexes cleanly and its lexemes satisfy
/// RFC 8259's grammar.
pub open spec fn json_accepts(input: Seq<u8>) -> bool {
    json_lex_clean(input) && json_verdict(json_lexemes(input)) is None
}

/// Parse `input` into a lossless tree, or report why not.
///
/// A tree is returned exactly when the input is a JSON text, and its text is
/// the input, byte for byte. Rejections carry the lexer's diagnostics, exactly
/// as [`json_lex_diags`] lists them, or the single grammatical problem
/// [`validate`] found.
pub fn parse(input: &[u8]) -> (r: Result<Cst, ParseReport>)
    requires
        input@.len() <= u32::MAX,
    ensures
        r is Ok <==> json_accepts(input@),
        r matches Ok(c) ==> c.text() == input@,
        r matches Ok(c) ==> c.root_node().leaves() == lexemes_leaves(input@, json_lexemes(input@)),
        r matches Ok(c) ==> c.root_node().depths() == json_depths(json_lexemes(input@), json_lexemes(input@).len() as int),
        r matches Ok(c) ==> seq_starts(c.root_node().kids()) == json_starts(json_lexemes(input@), json_lexemes(input@).len() as int),
        r matches Err(rep) ==> rep.diags().len() >= 1,
        r matches Err(rep) ==> !json_lex_clean(input@) ==> diag_view(rep.diags()) == json_lex_diags(input@),
        r matches Err(rep) ==> json_lex_clean(input@) ==> ({
            let v = json_verdict(json_lexemes(input@));
            &&& rep.diags().len() == 1
            &&& v matches Some(p) && rep.diags()[0].span == p.0 && rep.diags()[0].message@ == p.1
        }),
{
    let lexed = lex(input);
    if lexed.diagnostics.len() > 0 {
        return Err(ParseReport::new(lexed.diagnostics));
    }
    let structural = validate(&lexed);
    if structural.len() > 0 {
        return Err(ParseReport::new(structural));
    }
    proof {
        lemma_json_lexemes_cover(input@);
    }
    Ok(build(input, &lexed))
}

} // verus!
