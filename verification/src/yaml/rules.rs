//! Structural rules over the token stream, over and above the lexical ones.
//!
//! Rules are only added where invalidity is unambiguous from the token stream:
//! a rule that rejects even one valid document is worse than no rule. Each
//! check is stated as a specification of the diagnostics it produces, in
//! order, and [`validate`] concatenates them.
use super::kind;
use super::{error_count, token_bytes, LineSpan, Lexed, Token};
use crate::cst::Span;
use crate::report::Diagnostic;
use vstd::prelude::*;

verus! {

/// A diagnostic in specifications: where, and what.
pub type Finding = (Span, Seq<char>);

/// Whether diagnostics `ds` are exactly the findings `fs`, in order.
pub open spec fn same_findings(ds: Seq<Diagnostic>, fs: Seq<Finding>) -> bool {
    &&& ds.len() == fs.len()
    &&& forall|i: int| 0 <= i < ds.len() ==> (#[trigger] ds[i]).span == fs[i].0 && ds[i].message@ == fs[i].1
}

/// One finding, as a sequence.
pub open spec fn one(span: Span, message: Seq<char>) -> Seq<Finding> {
    seq![(span, message)]
}

/// Append a diagnostic.
fn report(ds: &mut Vec<Diagnostic>, span: Span, message: &str, fs: Ghost<Seq<Finding>>)
    requires
        same_findings(old(ds)@, fs@),
    ensures
        same_findings(final(ds)@, fs@ + one(span, message@)),
{
    let ghost before = ds@;
    ds.push(Diagnostic::new(span, message));
    proof {
        let f2 = fs@ + one(span, message@);
        assert forall|i: int| 0 <= i < ds@.len() implies (#[trigger] ds@[i]).span == f2[i].0 && ds@[i].message@ == f2[i].1 by {
            if i < before.len() {
                assert(ds@[i] == before[i]);
            }
        }
    }
}

proof fn lemma_same_empty(fs: Seq<Finding>, extra: Seq<Finding>, ds: Seq<Diagnostic>)
    requires
        same_findings(ds, fs),
        extra.len() == 0,
    ensures
        same_findings(ds, fs + extra),
{
    assert(fs + extra == fs);
}

// --- shared token predicates --------------------------------------------------

/// Spaces and indentation: skipped when looking for a token's neighbours.
pub open spec fn is_blank_kind(k: u16) -> bool {
    k == kind::SPACE || k == kind::INDENT
}

/// The last token before index `k` that is not space or indentation.
pub open spec fn prev_significant(ts: Seq<Token>, k: int) -> Option<u16>
    decreases k,
{
    if k <= 0 || k > ts.len() {
        None
    } else if !is_blank_kind(ts[k - 1].kind.0) {
        Some(ts[k - 1].kind.0)
    } else {
        prev_significant(ts, k - 1)
    }
}

/// The first token at or after index `k` that is not space or indentation.
pub open spec fn next_significant(ts: Seq<Token>, k: int) -> Option<u16>
    decreases ts.len() - k,
{
    if k < 0 || k >= ts.len() {
        None
    } else if !is_blank_kind(ts[k].kind.0) {
        Some(ts[k].kind.0)
    } else {
        next_significant(ts, k + 1)
    }
}

/// Whether the previous significant token opens a value: `:` or `-`.
pub open spec fn preceded_by_value_indicator(ts: Seq<Token>, idx: int) -> bool {
    prev_significant(ts, idx) == Some(kind::COLON) || prev_significant(ts, idx) == Some(kind::DASH)
}

/// Whether the next significant token is a Go template.
pub open spec fn followed_by_template(ts: Seq<Token>, idx: int) -> bool {
    next_significant(ts, idx + 1) == Some(kind::VERBATIM)
}

fn prev_significant_exec(tokens: &Vec<Token>, idx: usize) -> (r: Option<u16>)
    requires
        idx <= tokens@.len(),
    ensures
        r == prev_significant(tokens@, idx as int),
{
    let mut k = idx;
    while k > 0
        invariant
            k <= idx <= tokens@.len(),
            prev_significant(tokens@, idx as int) == prev_significant(tokens@, k as int),
        decreases k,
    {
        let c = tokens[k - 1].kind.0;
        if !(c == kind::SPACE || c == kind::INDENT) {
            return Some(c);
        }
        k = k - 1;
    }
    None
}

fn next_significant_exec(tokens: &Vec<Token>, idx: usize) -> (r: Option<u16>)
    requires
        idx <= tokens@.len(),
    ensures
        r == next_significant(tokens@, idx as int),
{
    let mut k = idx;
    while k < tokens.len()
        invariant
            idx <= k <= tokens@.len(),
            next_significant(tokens@, idx as int) == next_significant(tokens@, k as int),
        decreases tokens@.len() - k,
    {
        let c = tokens[k].kind.0;
        if !(c == kind::SPACE || c == kind::INDENT) {
            return Some(c);
        }
        k = k + 1;
    }
    None
}

// --- block scalar headers -----------------------------------------------------

/// `0`-`9`.
pub open spec fn is_digit(b: u8) -> bool {
    48 <= b <= 57
}

/// Chomping indicators: `+` and `-`.
pub open spec fn is_chomp(b: u8) -> bool {
    b == 43 || b == 45
}

/// Number of digits in `b`.
pub open spec fn digit_count(b: Seq<u8>) -> nat
    decreases b.len(),
{
    if b.len() == 0 { 0 } else { digit_count(b.drop_last()) + if is_digit(b.last()) { 1nat } else { 0nat } }
}

/// Number of chomping indicators in `b`.
pub open spec fn chomp_count(b: Seq<u8>) -> nat
    decreases b.len(),
{
    if b.len() == 0 { 0 } else { chomp_count(b.drop_last()) + if is_chomp(b.last()) { 1nat } else { 0nat } }
}

/// A header's indicators: everything after the `|` or `>`.
pub open spec fn indicators(text: Seq<u8>) -> Seq<u8> {
    if text.len() == 0 { Seq::empty() } else { text.subrange(1, text.len() as int) }
}

/// A plain scalar that is only a block indicator with at most two more
/// indicator characters: `>`, `|-`, `>2+`.
pub open spec fn bare_indicator(text: Seq<u8>) -> bool {
    &&& text.len() >= 1
    &&& (text[0] == 124 || text[0] == 62)
    &&& text.len() <= 3
    &&& forall|k: int| 1 <= k < text.len() ==> is_digit(#[trigger] text[k]) || is_chomp(text[k])
}

/// What the block-header rules find at token `idx`.
pub open spec fn header_findings_at(s: Seq<u8>, ts: Seq<Token>, idx: int) -> Seq<Finding> {
    let t = ts[idx];
    let text = token_bytes(s, t);
    if t.kind.0 == kind::BLOCK_HEADER {
        let ind = indicators(text);
        let a = if digit_count(ind) > 1 {
            one(t.span, "block scalar indentation indicator is a single digit 1-9"@)
        } else if ind.contains(48u8) {
            one(t.span, "block scalar indentation indicator 0 is not valid"@)
        } else {
            Seq::empty()
        };
        let b = if chomp_count(ind) > 1 {
            one(t.span, "block scalar has more than one chomping indicator"@)
        } else {
            Seq::empty()
        };
        let c = if t.span.end < s.len() && s[t.span.end as int] == 35 {
            one(t.span, "comment must be preceded by whitespace"@)
        } else {
            Seq::empty()
        };
        a + b + c
    } else if t.kind.0 == kind::PLAIN && bare_indicator(text) && preceded_by_value_indicator(ts, idx)
        && !followed_by_template(ts, idx) {
        one(t.span, "text after a block scalar indicator must be on the following line"@)
    } else {
        Seq::empty()
    }
}

/// A block header whose indicators are at most one indentation digit 1-9 and
/// at most one chomping indicator `+` or `-`, in either order (`|`, `|2`,
/// `>1-`, `|+9`), and which no `#` follows at once, draws no finding.
pub proof fn lemma_well_formed_header_draws_nothing(s: Seq<u8>, ts: Seq<Token>, idx: int, d: u8, c: u8)
    requires
        0 <= idx < ts.len(),
        ts[idx].kind.0 == kind::BLOCK_HEADER,
        49 <= d <= 57,
        c == 43 || c == 45,
        ({
            let ind = indicators(token_bytes(s, ts[idx]));
            ind == Seq::<u8>::empty() || ind == seq![d] || ind == seq![c] || ind == seq![d, c] || ind == seq![c, d]
        }),
        !(ts[idx].span.end < s.len() && s[ts[idx].span.end as int] == 35),
    ensures
        header_findings_at(s, ts, idx) == Seq::<Finding>::empty(),
{
    let ind = indicators(token_bytes(s, ts[idx]));
    assert(seq![d].drop_last() =~= Seq::<u8>::empty());
    assert(seq![c].drop_last() =~= Seq::<u8>::empty());
    assert(seq![d, c].drop_last() =~= seq![d]);
    assert(seq![c, d].drop_last() =~= seq![c]);
    assert(digit_count(Seq::<u8>::empty()) == 0 && chomp_count(Seq::<u8>::empty()) == 0);
    assert(seq![d].last() == d && seq![c].last() == c && seq![d, c].last() == c && seq![c, d].last() == d);
    assert(digit_count(seq![d]) == 1 && chomp_count(seq![d]) == 0);
    assert(digit_count(seq![c]) == 0 && chomp_count(seq![c]) == 1);
    assert(digit_count(seq![d, c]) == 1 && chomp_count(seq![d, c]) == 1);
    assert(digit_count(seq![c, d]) == 1 && chomp_count(seq![c, d]) == 1);
    assert(digit_count(ind) <= 1);
    assert(chomp_count(ind) <= 1);
    assert(!ind.contains(48u8)) by {
        if ind.contains(48u8) {
            let k = choose|k: int| 0 <= k < ind.len() && ind[k] == 48u8;
            assert(ind[k] == d || ind[k] == c);
        }
    }
    let e = Seq::<Finding>::empty();
    assert(e + e + e =~= e);
}

/// A block header whose indentation indicator is `0`, or runs to more than one
/// digit (`|0`, `|10`), is refused with the reason.
pub proof fn lemma_bad_indentation_indicator_is_refused(s: Seq<u8>, ts: Seq<Token>, idx: int)
    requires
        0 <= idx < ts.len(),
        ts[idx].kind.0 == kind::BLOCK_HEADER,
        digit_count(indicators(token_bytes(s, ts[idx]))) > 1 || indicators(token_bytes(s, ts[idx])).contains(48u8),
    ensures
        header_findings_at(s, ts, idx).len() >= 1,
        header_findings_at(s, ts, idx)[0] == (ts[idx].span, if digit_count(indicators(token_bytes(s, ts[idx]))) > 1 {
            "block scalar indentation indicator is a single digit 1-9"@
        } else {
            "block scalar indentation indicator 0 is not valid"@
        }),
{
}

/// A block header with more than one chomping indicator (`|+-`) is refused
/// with the reason.
pub proof fn lemma_two_chomping_indicators_are_refused(s: Seq<u8>, ts: Seq<Token>, idx: int)
    requires
        0 <= idx < ts.len(),
        ts[idx].kind.0 == kind::BLOCK_HEADER,
        chomp_count(indicators(token_bytes(s, ts[idx]))) > 1,
    ensures
        exists|m: int| 0 <= m < header_findings_at(s, ts, idx).len() && #[trigger] header_findings_at(s, ts, idx)[m]
            == (ts[idx].span, "block scalar has more than one chomping indicator"@),
{
    let t = ts[idx];
    let ind = indicators(token_bytes(s, t));
    let a = if digit_count(ind) > 1 {
        one(t.span, "block scalar indentation indicator is a single digit 1-9"@)
    } else if ind.contains(48u8) {
        one(t.span, "block scalar indentation indicator 0 is not valid"@)
    } else {
        Seq::empty()
    };
    let f = header_findings_at(s, ts, idx);
    assert(f[a.len() as int] == (t.span, "block scalar has more than one chomping indicator"@));
}

/// The block-header rules over the first `i` tokens.
pub open spec fn header_findings(s: Seq<u8>, ts: Seq<Token>, i: int) -> Seq<Finding>
    decreases i,
{
    if i <= 0 || i > ts.len() { Seq::empty() } else { header_findings(s, ts, i - 1) + header_findings_at(s, ts, i - 1) }
}

/// Counts over a header's indicators: digits, chomping indicators, and
/// whether a `0` occurs.
fn indicator_counts(text: &[u8]) -> (r: (usize, usize, bool))
    ensures
        r.0 == digit_count(indicators(text@)),
        r.1 == chomp_count(indicators(text@)),
        r.2 == indicators(text@).contains(48u8),
{
    let ghost ind = indicators(text@);
    let mut digits: usize = 0;
    let mut chomps: usize = 0;
    let mut zero = false;
    if text.len() == 0 {
        return (0, 0, false);
    }
    let mut i: usize = 1;
    proof {
        assert(ind.subrange(0, 0) == Seq::<u8>::empty());
    }
    while i < text.len()
        invariant
            1 <= i <= text@.len(),
            ind == text@.subrange(1, text@.len() as int),
            digits == digit_count(ind.subrange(0, i - 1)),
            chomps == chomp_count(ind.subrange(0, i - 1)),
            digits <= i,
            chomps <= i,
            zero == ind.subrange(0, i - 1).contains(48u8),
        decreases text@.len() - i,
    {
        let b = text[i];
        proof {
            let pre = ind.subrange(0, i - 1);
            let post = ind.subrange(0, i as int);
            assert(post.drop_last() == pre);
            assert(post.last() == b);
            if post.contains(48u8) && !pre.contains(48u8) {
                let w = choose|w: int| 0 <= w < post.len() && post[w] == 48u8;
                if w < pre.len() {
                    assert(pre[w] == post[w]);
                }
            }
            if pre.contains(48u8) {
                let w = choose|w: int| 0 <= w < pre.len() && pre[w] == 48u8;
                assert(post[w] == pre[w]);
            }
        }
        if 48 <= b && b <= 57 {
            digits = digits + 1;
        }
        if b == 43 || b == 45 {
            chomps = chomps + 1;
        }
        if b == 48 {
            zero = true;
        }
        i = i + 1;
    }
    proof {
        assert(ind.subrange(0, i - 1) == ind);
    }
    (digits, chomps, zero)
}

/// The bytes a token covers, or nothing when its span is out of range.
fn text_of<'a>(input: &'a [u8], t: Token) -> (r: &'a [u8])
    ensures
        r@ == token_bytes(input@, t),
{
    let a = t.span.start as usize;
    let b = t.span.end as usize;
    if a <= b && b <= input.len() {
        &input[a..b]
    } else {
        &input[0..0]
    }
}

fn bare_indicator_exec(text: &[u8]) -> (r: bool)
    ensures
        r == bare_indicator(text@),
{
    if text.len() == 0 || !(text[0] == 124 || text[0] == 62) || text.len() > 3 {
        return false;
    }
    let mut k: usize = 1;
    while k < text.len()
        invariant
            1 <= k <= text@.len() <= 3,
            forall|m: int| 1 <= m < k ==> is_digit(#[trigger] text@[m]) || is_chomp(text@[m]),
        decreases text@.len() - k,
    {
        let b = text[k];
        if !((48 <= b && b <= 57) || b == 43 || b == 45) {
            return false;
        }
        k = k + 1;
    }
    true
}

/// Block scalar headers: at most one indentation digit, `1`-`9`; at most one
/// chomping indicator; a comment after the header must be separated by
/// whitespace; and a bare indicator in value position with text after it on
/// the same line is an error, unless a Go template follows.
fn check_block_headers(lexed: &Lexed, input: &[u8], ds: &mut Vec<Diagnostic>, fs: Ghost<Seq<Finding>>)
    requires
        same_findings(old(ds)@, fs@),
    ensures
        same_findings(final(ds)@, fs@ + header_findings(input@, lexed.tokens@, lexed.tokens@.len() as int)),
{
    let ghost ts = lexed.tokens@;
    let ghost s = input@;
    let mut idx: usize = 0;
    proof {
        lemma_same_empty(fs@, header_findings(s, ts, 0), ds@);
    }
    while idx < lexed.tokens.len()
        invariant
            ts == lexed.tokens@,
            s == input@,
            idx <= ts.len(),
            same_findings(ds@, fs@ + header_findings(s, ts, idx as int)),
        decreases ts.len() - idx,
    {
        let t = lexed.tokens[idx];
        let ghost acc = fs@ + header_findings(s, ts, idx as int);
        proof {
            assert(fs@ + header_findings(s, ts, idx + 1) == acc + header_findings_at(s, ts, idx as int));
            assert(ts[idx as int] == t);
        }
        if t.kind.0 == kind::BLOCK_HEADER {
            let text = text_of(input, t);
            let (digits, chomps, zero) = indicator_counts(text);
            let ghost a1 = acc;
            if digits > 1 {
                report(ds, t.span, "block scalar indentation indicator is a single digit 1-9", Ghost(acc));
            } else if zero {
                report(ds, t.span, "block scalar indentation indicator 0 is not valid", Ghost(acc));
            } else {
                proof { lemma_same_empty(acc, Seq::empty(), ds@); }
            }
            let ghost ind = indicators(token_bytes(s, t));
            let ghost a2 = acc + if digit_count(ind) > 1 {
                one(t.span, "block scalar indentation indicator is a single digit 1-9"@)
            } else if ind.contains(48u8) {
                one(t.span, "block scalar indentation indicator 0 is not valid"@)
            } else {
                Seq::<Finding>::empty()
            };
            proof {
                if !(digit_count(ind) > 1) && !ind.contains(48u8) {
                    assert(acc + Seq::<Finding>::empty() == acc);
                }
            }
            if chomps > 1 {
                report(ds, t.span, "block scalar has more than one chomping indicator", Ghost(a2));
            } else {
                proof { lemma_same_empty(a2, Seq::empty(), ds@); }
            }
            let ghost a3 = a2 + if chomp_count(ind) > 1 {
                one(t.span, "block scalar has more than one chomping indicator"@)
            } else {
                Seq::<Finding>::empty()
            };
            proof {
                if !(chomp_count(ind) > 1) {
                    assert(a2 + Seq::<Finding>::empty() == a2);
                }
            }
            let e = t.span.end as usize;
            if e < input.len() && input[e] == 35 {
                report(ds, t.span, "comment must be preceded by whitespace", Ghost(a3));
            } else {
                proof { lemma_same_empty(a3, Seq::empty(), ds@); }
            }
            proof {
                let x = if digit_count(ind) > 1 {
                    one(t.span, "block scalar indentation indicator is a single digit 1-9"@)
                } else if ind.contains(48u8) {
                    one(t.span, "block scalar indentation indicator 0 is not valid"@)
                } else {
                    Seq::<Finding>::empty()
                };
                let y = if chomp_count(ind) > 1 {
                    one(t.span, "block scalar has more than one chomping indicator"@)
                } else {
                    Seq::<Finding>::empty()
                };
                let z = if t.span.end < s.len() && s[t.span.end as int] == 35 {
                    one(t.span, "comment must be preceded by whitespace"@)
                } else {
                    Seq::<Finding>::empty()
                };
                assert(header_findings_at(s, ts, idx as int) == x + y + z);
                vstd::seq_lib::lemma_concat_associative(acc, x, y);
                vstd::seq_lib::lemma_concat_associative(acc, x + y, z);
                if !(t.span.end < s.len() && s[t.span.end as int] == 35) {
                    assert(a3 + Seq::<Finding>::empty() == a3);
                }
            }
        } else if t.kind.0 == kind::PLAIN {
            let text = text_of(input, t);
            let flagged = bare_indicator_exec(text) && {
                let p = prev_significant_exec(&lexed.tokens, idx);
                p == Some(kind::COLON) || p == Some(kind::DASH)
            } && next_significant_exec(&lexed.tokens, idx + 1) != Some(kind::VERBATIM);
            if flagged {
                report(ds, t.span, "text after a block scalar indicator must be on the following line", Ghost(acc));
            } else {
                proof { lemma_same_empty(acc, header_findings_at(s, ts, idx as int), ds@); }
            }
        } else {
            proof { lemma_same_empty(acc, header_findings_at(s, ts, idx as int), ds@); }
        }
        idx = idx + 1;
    }
}

// --- comments -----------------------------------------------------------------

/// What the comment rule finds at token `idx`: a `#` only starts a comment
/// when whitespace or a line start precedes it.
pub open spec fn comment_findings_at(s: Seq<u8>, ts: Seq<Token>, idx: int) -> Seq<Finding> {
    let t = ts[idx];
    if t.kind.0 == kind::COMMENT && t.span.start != 0 && !(t.span.start <= s.len() && {
        let b = s[t.span.start - 1];
        b == 32 || b == 9 || b == 10 || b == 13
    }) {
        one(t.span, "comment must be preceded by whitespace"@)
    } else {
        Seq::empty()
    }
}

/// The comment rule over the first `i` tokens.
pub open spec fn comment_findings(s: Seq<u8>, ts: Seq<Token>, i: int) -> Seq<Finding>
    decreases i,
{
    if i <= 0 || i > ts.len() { Seq::empty() } else { comment_findings(s, ts, i - 1) + comment_findings_at(s, ts, i - 1) }
}

fn check_comments(lexed: &Lexed, input: &[u8], ds: &mut Vec<Diagnostic>, fs: Ghost<Seq<Finding>>)
    requires
        same_findings(old(ds)@, fs@),
    ensures
        same_findings(final(ds)@, fs@ + comment_findings(input@, lexed.tokens@, lexed.tokens@.len() as int)),
{
    let ghost ts = lexed.tokens@;
    let ghost s = input@;
    let mut idx: usize = 0;
    proof {
        lemma_same_empty(fs@, comment_findings(s, ts, 0), ds@);
    }
    while idx < lexed.tokens.len()
        invariant
            ts == lexed.tokens@,
            s == input@,
            idx <= ts.len(),
            same_findings(ds@, fs@ + comment_findings(s, ts, idx as int)),
        decreases ts.len() - idx,
    {
        let t = lexed.tokens[idx];
        let ghost acc = fs@ + comment_findings(s, ts, idx as int);
        proof {
            assert(fs@ + comment_findings(s, ts, idx + 1) == acc + comment_findings_at(s, ts, idx as int));
            assert(ts[idx as int] == t);
        }
        let a = t.span.start as usize;
        let flagged = t.kind.0 == kind::COMMENT && a != 0 && !(a <= input.len() && {
            let b = input[a - 1];
            b == 32 || b == 9 || b == 10 || b == 13
        });
        if flagged {
            report(ds, t.span, "comment must be preceded by whitespace", Ghost(acc));
        } else {
            proof { lemma_same_empty(acc, comment_findings_at(s, ts, idx as int), ds@); }
        }
        idx = idx + 1;
    }
}

// --- anchors ------------------------------------------------------------------

/// The anchor rule's state after the first `i` tokens: the kind of the last
/// significant token on the current line, and the findings so far. A node
/// takes one anchor, an alias is a complete node, and an anchor cannot
/// precede a `-` on its line.
pub open spec fn anchor_walk(ts: Seq<Token>, i: int) -> (Option<u16>, Seq<Finding>)
    decreases i,
{
    if i <= 0 || i > ts.len() {
        (None, Seq::empty())
    } else {
        let (prev, fs) = anchor_walk(ts, i - 1);
        let t = ts[i - 1];
        let k = t.kind.0;
        if k == kind::SPACE || k == kind::INDENT || k == kind::COMMENT {
            (prev, fs)
        } else if k == kind::NEWLINE {
            (None, fs)
        } else if prev == Some(kind::ANCHOR) {
            let found = if k == kind::ALIAS {
                one(t.span, "an alias is a complete node and cannot carry an anchor"@)
            } else if k == kind::ANCHOR {
                one(t.span, "a node cannot have two anchors"@)
            } else if k == kind::DASH {
                one(t.span, "an anchor cannot precede a sequence entry indicator on the same line"@)
            } else {
                Seq::empty()
            };
            (Some(k), fs + found)
        } else {
            (Some(k), fs)
        }
    }
}

fn check_anchors(lexed: &Lexed, ds: &mut Vec<Diagnostic>, fs: Ghost<Seq<Finding>>)
    requires
        same_findings(old(ds)@, fs@),
    ensures
        same_findings(final(ds)@, fs@ + anchor_walk(lexed.tokens@, lexed.tokens@.len() as int).1),
{
    let ghost ts = lexed.tokens@;
    let mut previous_kind: Option<u16> = None;
    let mut idx: usize = 0;
    proof {
        lemma_same_empty(fs@, anchor_walk(ts, 0).1, ds@);
    }
    while idx < lexed.tokens.len()
        invariant
            ts == lexed.tokens@,
            idx <= ts.len(),
            previous_kind == anchor_walk(ts, idx as int).0,
            same_findings(ds@, fs@ + anchor_walk(ts, idx as int).1),
        decreases ts.len() - idx,
    {
        let t = lexed.tokens[idx];
        let k = t.kind.0;
        let ghost acc = fs@ + anchor_walk(ts, idx as int).1;
        proof {
            assert(ts[idx as int] == t);
        }
        if k == kind::SPACE || k == kind::INDENT || k == kind::COMMENT {
        } else if k == kind::NEWLINE {
            previous_kind = None;
        } else {
            let was_anchor = previous_kind == Some(kind::ANCHOR);
            previous_kind = Some(k);
            if was_anchor {
                if k == kind::ALIAS {
                    report(ds, t.span, "an alias is a complete node and cannot carry an anchor", Ghost(acc));
                } else if k == kind::ANCHOR {
                    report(ds, t.span, "a node cannot have two anchors", Ghost(acc));
                } else if k == kind::DASH {
                    report(ds, t.span, "an anchor cannot precede a sequence entry indicator on the same line", Ghost(acc));
                } else {
                    proof { lemma_same_empty(acc, Seq::empty(), ds@); }
                }
                proof {
                    vstd::seq_lib::lemma_concat_associative(fs@, anchor_walk(ts, idx as int).1, anchor_walk(ts, idx + 1).1.subrange(anchor_walk(ts, idx as int).1.len() as int, anchor_walk(ts, idx + 1).1.len() as int));
                }
            }
        }
        proof {
            let w0 = anchor_walk(ts, idx as int).1;
            let w1 = anchor_walk(ts, idx + 1).1;
            assert(w1.subrange(0, w0.len() as int) == w0);
            assert(w1 == w0 + w1.subrange(w0.len() as int, w1.len() as int));
            vstd::seq_lib::lemma_concat_associative(fs@, w0, w1.subrange(w0.len() as int, w1.len() as int));
        }
        idx = idx + 1;
    }
}

// --- directives and document markers -------------------------------------------

/// Tokens that carry no content: spaces, indentation, newlines, comments.
pub open spec fn is_insignificant_kind(k: u16) -> bool {
    k == kind::SPACE || k == kind::INDENT || k == kind::NEWLINE || k == kind::COMMENT
}

/// The tokens of a line, or none when its range is out of bounds.
pub open spec fn line_tokens(ts: Seq<Token>, l: LineSpan) -> Seq<Token> {
    if l.first <= l.end && l.end <= ts.len() { ts.subrange(l.first as int, l.end as int) } else { Seq::empty() }
}

/// The first significant token at or after index `k`.
pub open spec fn first_sig(lt: Seq<Token>, k: int) -> Option<Token>
    decreases lt.len() - k,
{
    if k < 0 || k >= lt.len() {
        None
    } else if !is_insignificant_kind(lt[k].kind.0) {
        Some(lt[k])
    } else {
        first_sig(lt, k + 1)
    }
}

/// Number of significant tokens.
pub open spec fn sig_count(lt: Seq<Token>) -> nat
    decreases lt.len(),
{
    if lt.len() == 0 {
        0
    } else {
        sig_count(lt.drop_last()) + if is_insignificant_kind(lt.last().kind.0) { 0nat } else { 1nat }
    }
}

/// Space or tab: what separates a directive's fields.
pub open spec fn is_sep(b: u8) -> bool {
    b == 32 || b == 9
}

/// Index of the first `#` at or after `i`, or the length.
pub open spec fn first_hash(b: Seq<u8>, i: int) -> int
    decreases b.len() - i,
{
    if i < 0 || i >= b.len() {
        b.len() as int
    } else if b[i] == 35 {
        i
    } else {
        first_hash(b, i + 1)
    }
}

/// A directive without its trailing comment; the first `#` starts one only
/// when whitespace precedes it.
pub open spec fn strip_comment(full: Seq<u8>) -> Seq<u8> {
    let at = first_hash(full, 0);
    if 0 < at < full.len() && is_sep(full[at - 1]) { full.subrange(0, at) } else { full }
}

/// End of the field starting at `i`: the next separator, or the end.
pub open spec fn word_end(b: Seq<u8>, i: int) -> int
    decreases b.len() - i,
{
    if i < 0 || i >= b.len() || is_sep(b[i]) { i } else { word_end(b, i + 1) }
}

/// A field that starts at a non-separator is non-empty and ends in bounds.
pub proof fn lemma_word_end(b: Seq<u8>, i: int)
    requires
        0 <= i <= b.len(),
    ensures
        i <= word_end(b, i) <= b.len(),
        i < b.len() && !is_sep(b[i]) ==> word_end(b, i) > i,
    decreases b.len() - i,
{
    if i < b.len() && !is_sep(b[i]) {
        lemma_word_end(b, i + 1);
    }
}

/// The separator-delimited, non-empty fields of `b` from index `i` on.
pub open spec fn fields_from(b: Seq<u8>, i: int) -> Seq<Seq<u8>>
    decreases b.len() - i,
{
    if i < 0 || i >= b.len() {
        Seq::empty()
    } else if is_sep(b[i]) {
        fields_from(b, i + 1)
    } else {
        let e = word_end(b, i);
        proof {
            lemma_word_end(b, i);
        }
        seq![b.subrange(i, e)] + fields_from(b, e)
    }
}

/// Number of `.` in `v`.
pub open spec fn dot_count(v: Seq<u8>) -> nat
    decreases v.len(),
{
    if v.len() == 0 { 0 } else { dot_count(v.drop_last()) + if v.last() == 46 { 1nat } else { 0nat } }
}

/// `<major>.<minor>`: digits and exactly one dot.
pub open spec fn version_ok(v: Seq<u8>) -> bool {
    dot_count(v) == 1 && forall|k: int| 0 <= k < v.len() ==> is_digit(#[trigger] v[k]) || v[k] == 46
}

/// The bytes `%YAML`.
pub open spec fn yaml_word() -> Seq<u8> {
    seq![37u8, 89u8, 65u8, 77u8, 76u8]
}

/// A directive line's effect: the `%YAML` count after it, and its findings.
/// `%YAML` takes one parameter, `<major>.<minor>`, at most once per document.
pub open spec fn directive_step(s: Seq<u8>, t: Token, yaml: nat) -> (nat, Seq<Finding>) {
    let fields = fields_from(strip_comment(token_bytes(s, t)), 0);
    if fields.len() == 0 || fields[0] != yaml_word() {
        (yaml, Seq::empty())
    } else {
        let a = if yaml + 1 > 1 { one(t.span, "a document may carry only one %YAML directive"@) } else { Seq::empty() };
        let b = if fields.len() != 2 {
            one(t.span, "%YAML takes exactly one parameter, the version"@)
        } else if !version_ok(fields[1]) {
            one(t.span, "%YAML version must be `<major>.<minor>`"@)
        } else {
            Seq::empty()
        };
        (yaml + 1, a + b)
    }
}

/// The document-structure rules over the first `i` lines: pending directives,
/// `%YAML` directives in this document, and findings. Directives must be
/// followed by `---`; only a comment may follow `...`.
pub open spec fn doc_walk(s: Seq<u8>, ts: Seq<Token>, ls: Seq<LineSpan>, i: int) -> (nat, nat, Seq<Finding>)
    decreases i,
{
    if i <= 0 || i > ls.len() {
        (0, 0, Seq::empty())
    } else {
        let (pending, yaml, fs) = doc_walk(s, ts, ls, i - 1);
        let lt = line_tokens(ts, ls[i - 1]);
        match first_sig(lt, 0) {
            None => (pending, yaml, fs),
            Some(first) => {
                let k = first.kind.0;
                if k == kind::DIRECTIVE {
                    let (y, f) = directive_step(s, first, yaml);
                    (pending + 1, y, fs + f)
                } else if k == kind::DOC_START {
                    (0, 0, fs)
                } else if k == kind::DOC_END {
                    let a = if pending > 0 {
                        one(first.span, "directives must be followed by `---` before the document ends"@)
                    } else {
                        Seq::empty()
                    };
                    let b = if sig_count(lt) > 1 {
                        one(first.span, "nothing but a comment may follow a `...` document-end marker"@)
                    } else {
                        Seq::empty()
                    };
                    (0, 0, fs + a + b)
                } else if pending > 0 {
                    (0, yaml, fs + one(first.span, "directives must be followed by a `---` document start"@))
                } else {
                    (pending, yaml, fs)
                }
            },
        }
    }
}

/// The document-structure findings, including directives left pending at
/// the end of the input.
pub open spec fn doc_findings(s: Seq<u8>, ts: Seq<Token>, ls: Seq<LineSpan>) -> Seq<Finding> {
    let (pending, _, fs) = doc_walk(s, ts, ls, ls.len() as int);
    if pending > 0 && ts.len() > 0 {
        fs + one(ts.last().span, "directives must be followed by a `---` document start"@)
    } else {
        fs
    }
}

/// The fields that `pairs` delimit in `b`.
pub open spec fn field_seqs(b: Seq<u8>, pairs: Seq<(usize, usize)>) -> Seq<Seq<u8>> {
    pairs.map_values(|p: (usize, usize)| b.subrange(p.0 as int, p.1 as int))
}

fn strip_comment_exec(full: &[u8]) -> (r: &[u8])
    ensures
        r@ == strip_comment(full@),
{
    let mut at: usize = 0;
    while at < full.len() && full[at] != 35
        invariant
            at <= full@.len(),
            first_hash(full@, 0) == first_hash(full@, at as int),
        decreases full@.len() - at,
    {
        at = at + 1;
    }
    if 0 < at && at < full.len() && (full[at - 1] == 32 || full[at - 1] == 9) {
        &full[0..at]
    } else {
        full
    }
}

fn fields_exec(b: &[u8]) -> (r: Vec<(usize, usize)>)
    ensures
        field_seqs(b@, r@) == fields_from(b@, 0),
        forall|k: int| 0 <= k < r@.len() ==> (#[trigger] r@[k]).0 <= r@[k].1 <= b@.len(),
{
    let mut r: Vec<(usize, usize)> = Vec::new();
    let mut i: usize = 0;
    proof {
        assert(field_seqs(b@, r@) == Seq::<Seq<u8>>::empty());
        assert(Seq::<Seq<u8>>::empty() + fields_from(b@, 0) == fields_from(b@, 0));
    }
    while i < b.len()
        invariant
            i <= b@.len(),
            fields_from(b@, 0) == field_seqs(b@, r@) + fields_from(b@, i as int),
            forall|k: int| 0 <= k < r@.len() ==> (#[trigger] r@[k]).0 <= r@[k].1 <= b@.len(),
        decreases b@.len() - i,
    {
        if b[i] == 32 || b[i] == 9 {
            i = i + 1;
        } else {
            let mut e = i;
            while e < b.len() && !(b[e] == 32 || b[e] == 9)
                invariant
                    i <= e <= b@.len(),
                    word_end(b@, i as int) == word_end(b@, e as int),
                decreases b@.len() - e,
            {
                e = e + 1;
            }
            let ghost before = r@;
            proof {
                lemma_word_end(b@, i as int);
            }
            r.push((i, e));
            proof {
                assert(field_seqs(b@, r@) == field_seqs(b@, before) + seq![b@.subrange(i as int, e as int)]);
                vstd::seq_lib::lemma_concat_associative(field_seqs(b@, before), seq![b@.subrange(i as int, e as int)], fields_from(b@, e as int));
            }
            i = e;
        }
    }
    proof {
        assert(field_seqs(b@, r@) + Seq::<Seq<u8>>::empty() == field_seqs(b@, r@));
    }
    r
}

fn version_ok_exec(v: &[u8]) -> (r: bool)
    ensures
        r == version_ok(v@),
{
    let mut dots: usize = 0;
    let mut i: usize = 0;
    proof {
        assert(v@.subrange(0, 0) == Seq::<u8>::empty());
    }
    while i < v.len()
        invariant
            i <= v@.len(),
            dots == dot_count(v@.subrange(0, i as int)),
            dots <= i,
            forall|k: int| 0 <= k < i ==> is_digit(#[trigger] v@[k]) || v@[k] == 46,
        decreases v@.len() - i,
    {
        let c = v[i];
        if !((48 <= c && c <= 57) || c == 46) {
            return false;
        }
        proof {
            assert(v@.subrange(0, i + 1).drop_last() == v@.subrange(0, i as int));
        }
        if c == 46 {
            dots = dots + 1;
        }
        i = i + 1;
    }
    proof {
        assert(v@.subrange(0, i as int) == v@);
    }
    dots == 1
}

fn is_yaml_word(f: &[u8]) -> (r: bool)
    ensures
        r == (f@ == yaml_word()),
{
    let r = f.len() == 5 && f[0] == 37 && f[1] == 89 && f[2] == 65 && f[3] == 77 && f[4] == 76;
    proof {
        if r {
            assert(f@ == yaml_word());
        }
    }
    r
}

/// `%YAML` takes one parameter, appears at most once per document, and may be
/// followed by a comment only if whitespace separates them.
fn check_yaml_directive(input: &[u8], t: Token, yaml: &mut usize, ds: &mut Vec<Diagnostic>, fs: Ghost<Seq<Finding>>)
    requires
        same_findings(old(ds)@, fs@),
        *old(yaml) < usize::MAX,
    ensures
        *final(yaml) == directive_step(input@, t, *old(yaml) as nat).0,
        same_findings(final(ds)@, fs@ + directive_step(input@, t, *old(yaml) as nat).1),
{
    let full = text_of(input, t);
    let body = strip_comment_exec(full);
    let fields = fields_exec(body);
    let ghost fseq = fields_from(body@, 0);
    proof {
        assert(fseq.len() == fields@.len());
    }
    if fields.len() == 0 {
        proof { lemma_same_empty(fs@, Seq::empty(), ds@); }
        return;
    }
    let (a0, b0) = fields[0];
    proof {
        assert(fields@[0] == (a0, b0));
        assert(fseq[0] == body@.subrange(a0 as int, b0 as int));
    }
    let first = &body[a0..b0];
    if !is_yaml_word(first) {
        proof { lemma_same_empty(fs@, Seq::empty(), ds@); }
        return;
    }
    *yaml = *yaml + 1;
    let ghost y = *yaml;
    let ghost a = if y > 1 { one(t.span, "a document may carry only one %YAML directive"@) } else { Seq::<Finding>::empty() };
    if *yaml > 1 {
        report(ds, t.span, "a document may carry only one %YAML directive", fs);
    } else {
        proof { lemma_same_empty(fs@, Seq::empty(), ds@); }
    }
    proof {
        if !(y > 1) {
            assert(fs@ + Seq::<Finding>::empty() == fs@);
        }
    }
    let ghost acc = fs@ + a;
    if fields.len() != 2 {
        report(ds, t.span, "%YAML takes exactly one parameter, the version", Ghost(acc));
    } else {
        let (a1, b1) = fields[1];
        proof {
            assert(fields@[1] == (a1, b1));
            assert(fseq[1] == body@.subrange(a1 as int, b1 as int));
        }
        if !version_ok_exec(&body[a1..b1]) {
            report(ds, t.span, "%YAML version must be `<major>.<minor>`", Ghost(acc));
        } else {
            proof { lemma_same_empty(acc, Seq::empty(), ds@); }
        }
    }
    proof {
        let b = if fseq.len() != 2 {
            one(t.span, "%YAML takes exactly one parameter, the version"@)
        } else if !version_ok(fseq[1]) {
            one(t.span, "%YAML version must be `<major>.<minor>`"@)
        } else {
            Seq::<Finding>::empty()
        };
        vstd::seq_lib::lemma_concat_associative(fs@, a, b);
        if !(fseq.len() != 2) && version_ok(fseq[1]) {
            assert(acc + Seq::<Finding>::empty() == acc);
        }
    }
}

fn first_significant(tokens: &Vec<Token>, a: usize, b: usize) -> (r: Option<Token>)
    requires
        a <= b <= tokens@.len(),
    ensures
        r == first_sig(tokens@.subrange(a as int, b as int), 0),
{
    let ghost lt = tokens@.subrange(a as int, b as int);
    let mut k = a;
    while k < b
        invariant
            a <= k <= b <= tokens@.len(),
            lt == tokens@.subrange(a as int, b as int),
            first_sig(lt, 0) == first_sig(lt, k - a),
        decreases b - k,
    {
        let t = tokens[k];
        proof {
            assert(lt[k - a] == t);
        }
        if !(t.kind.0 == kind::SPACE || t.kind.0 == kind::INDENT || t.kind.0 == kind::NEWLINE || t.kind.0 == kind::COMMENT) {
            return Some(t);
        }
        k = k + 1;
    }
    None
}

/// The first significant token of line `l`, and how many significant tokens it has.
fn line_significance(tokens: &Vec<Token>, l: LineSpan) -> (r: (Option<Token>, usize))
    ensures
        r.0 == first_sig(line_tokens(tokens@, l), 0),
        r.1 == sig_count(line_tokens(tokens@, l)),
{
    let ghost lt = line_tokens(tokens@, l);
    if !(l.first <= l.end && (l.end as usize) <= tokens.len()) {
        return (None, 0);
    }
    let a = l.first as usize;
    let b = l.end as usize;
    let found = first_significant(tokens, a, b);
    let mut count: usize = 0;
    let mut m = a;
    proof {
        assert(lt.subrange(0, 0) == Seq::<Token>::empty());
    }
    while m < b
        invariant
            a <= m <= b <= tokens@.len(),
            lt == tokens@.subrange(a as int, b as int),
            count == sig_count(lt.subrange(0, m - a)),
            count <= m - a,
        decreases b - m,
    {
        let t = tokens[m];
        proof {
            assert(lt.subrange(0, m - a + 1).drop_last() == lt.subrange(0, m - a));
            assert(lt[m - a] == t);
        }
        if !(t.kind.0 == kind::SPACE || t.kind.0 == kind::INDENT || t.kind.0 == kind::NEWLINE || t.kind.0 == kind::COMMENT) {
            count = count + 1;
        }
        m = m + 1;
    }
    proof {
        assert(lt.subrange(0, b - a) == lt);
    }
    (found, count)
}

/// Directives, document markers, and what may follow them.
fn check_document_structure(lexed: &Lexed, input: &[u8], ds: &mut Vec<Diagnostic>, fs: Ghost<Seq<Finding>>)
    requires
        same_findings(old(ds)@, fs@),
    ensures
        same_findings(final(ds)@, fs@ + doc_findings(input@, lexed.tokens@, lexed.lines@)),
{
    let ghost s = input@;
    let ghost ts = lexed.tokens@;
    let ghost ls = lexed.lines@;
    let mut pending: usize = 0;
    let mut yaml: usize = 0;
    let mut i: usize = 0;
    proof {
        lemma_same_empty(fs@, Seq::empty(), ds@);
    }
    while i < lexed.lines.len()
        invariant
            s == input@,
            ts == lexed.tokens@,
            ls == lexed.lines@,
            i <= ls.len(),
            pending <= i,
            yaml <= i,
            pending == doc_walk(s, ts, ls, i as int).0,
            yaml == doc_walk(s, ts, ls, i as int).1,
            same_findings(ds@, fs@ + doc_walk(s, ts, ls, i as int).2),
        decreases ls.len() - i,
    {
        let l = lexed.lines[i];
        let ghost acc = fs@ + doc_walk(s, ts, ls, i as int).2;
        let (first, count) = line_significance(&lexed.tokens, l);
        proof {
            assert(ls[i as int] == l);
        }
        match first {
            None => {},
            Some(t) => {
                let k = t.kind.0;
                if k == kind::DIRECTIVE {
                    let ghost y0 = yaml as nat;
                    check_yaml_directive(input, t, &mut yaml, ds, Ghost(acc));
                    proof {
                        vstd::seq_lib::lemma_concat_associative(fs@, doc_walk(s, ts, ls, i as int).2, directive_step(s, t, y0).1);
                        assert(directive_step(s, t, y0).0 <= y0 + 1);
                    }
                    pending = pending + 1;
                } else if k == kind::DOC_START {
                    pending = 0;
                    yaml = 0;
                    proof { lemma_same_empty(acc, Seq::empty(), ds@); assert(acc + Seq::<Finding>::empty() == acc); }
                } else if k == kind::DOC_END {
                    let ghost p0 = pending;
                    if pending > 0 {
                        report(ds, t.span, "directives must be followed by `---` before the document ends", Ghost(acc));
                    } else {
                        proof { lemma_same_empty(acc, Seq::empty(), ds@); }
                    }
                    let ghost a = if p0 > 0 {
                        one(t.span, "directives must be followed by `---` before the document ends"@)
                    } else {
                        Seq::<Finding>::empty()
                    };
                    if count > 1 {
                        report(ds, t.span, "nothing but a comment may follow a `...` document-end marker", Ghost(acc + a));
                    } else {
                        proof { lemma_same_empty(acc + a, Seq::empty(), ds@); }
                    }
                    proof {
                        if !(p0 > 0) {
                            assert(acc + Seq::<Finding>::empty() == acc);
                        }
                        let b = if count > 1 {
                            one(t.span, "nothing but a comment may follow a `...` document-end marker"@)
                        } else {
                            Seq::<Finding>::empty()
                        };
                        vstd::seq_lib::lemma_concat_associative(fs@, doc_walk(s, ts, ls, i as int).2, a);
                        vstd::seq_lib::lemma_concat_associative(fs@, doc_walk(s, ts, ls, i as int).2 + a, b);
                        if !(count > 1) {
                            assert(acc + a + Seq::<Finding>::empty() == acc + a);
                        }
                    }
                    pending = 0;
                    yaml = 0;
                } else if pending > 0 {
                    report(ds, t.span, "directives must be followed by a `---` document start", Ghost(acc));
                    proof {
                        vstd::seq_lib::lemma_concat_associative(fs@, doc_walk(s, ts, ls, i as int).2,
                            one(t.span, "directives must be followed by a `---` document start"@));
                    }
                    pending = 0;
                } else {
                }
            },
        }
        i = i + 1;
    }
    if pending > 0 && lexed.tokens.len() > 0 {
        let last = lexed.tokens[lexed.tokens.len() - 1];
        let ghost acc = fs@ + doc_walk(s, ts, ls, i as int).2;
        report(ds, last.span, "directives must be followed by a `---` document start", Ghost(acc));
        proof {
            assert(ts.last() == last);
            vstd::seq_lib::lemma_concat_associative(fs@, doc_walk(s, ts, ls, i as int).2,
                one(last.span, "directives must be followed by a `---` document start"@));
        }
    }
}

/// Every structural finding, in the order the rules run: block headers,
/// comments, anchors, then document structure. None when the lexer already
/// marked an error token, since that is reported lexically.
pub open spec fn yaml_findings(s: Seq<u8>, ts: Seq<Token>, ls: Seq<LineSpan>) -> Seq<Finding> {
    if error_count(ts) > 0 {
        Seq::empty()
    } else {
        header_findings(s, ts, ts.len() as int) + comment_findings(s, ts, ts.len() as int)
            + anchor_walk(ts, ts.len() as int).1 + doc_findings(s, ts, ls)
    }
}

/// Structural checks, over and above the lexical ones [`super::lex`] already
/// reports: exactly the findings of [`yaml_findings`], in order.
pub fn validate(lexed: &Lexed, input: &[u8]) -> (r: Vec<Diagnostic>)
    ensures
        same_findings(r@, yaml_findings(input@, lexed.tokens@, lexed.lines@)),
{
    let ghost ts = lexed.tokens@;
    let ghost s = input@;
    let mut ds: Vec<Diagnostic> = Vec::new();
    let mut i: usize = 0;
    while i < lexed.tokens.len()
        invariant
            ts == lexed.tokens@,
            i <= ts.len(),
            forall|k: int| 0 <= k < i ==> (#[trigger] ts[k]).kind.0 != kind::ERROR,
            ds@.len() == 0,
        decreases ts.len() - i,
    {
        if lexed.tokens[i].kind.0 == kind::ERROR {
            proof {
                super::lemma_error_count_zero(ts);
                assert(ts[i as int].kind.0 == kind::ERROR);
                assert(same_findings(ds@, Seq::<Finding>::empty()));
            }
            return ds;
        }
        i = i + 1;
    }
    proof {
        super::lemma_error_count_zero(ts);
        assert(same_findings(ds@, Seq::<Finding>::empty()));
    }
    let ghost f0 = Seq::<Finding>::empty();
    check_block_headers(lexed, input, &mut ds, Ghost(f0));
    let ghost f1 = f0 + header_findings(s, ts, ts.len() as int);
    check_comments(lexed, input, &mut ds, Ghost(f1));
    let ghost f2 = f1 + comment_findings(s, ts, ts.len() as int);
    check_anchors(lexed, &mut ds, Ghost(f2));
    let ghost f3 = f2 + anchor_walk(ts, ts.len() as int).1;
    check_document_structure(lexed, input, &mut ds, Ghost(f3));
    proof {
        assert(f0 + header_findings(s, ts, ts.len() as int) == header_findings(s, ts, ts.len() as int));
    }
    ds
}

} // verus!
