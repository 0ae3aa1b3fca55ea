//! The edit check shared by every representation: which token to edit, the
//! text it gets, what the input must read afterwards, and where the edited
//! token must lie, each computed from the tokenizer alone so that it is
//! independent of every tree under test.
use super::lex::{tok_end, Kind, Lexed, Tok};
use vstd::prelude::*;

verus! {

/// The fixed replacement text, `SPIKE-EDIT`. Deliberately a different
/// length from most tokens, so that a length-change bug cannot hide.
pub fn edit_text() -> (r: Vec<u8>)
    ensures
        r@ == seq![83u8, 80u8, 73u8, 75u8, 69u8, 45u8, 69u8, 68u8, 73u8, 84u8],
{
    vec![83u8, 80u8, 73u8, 75u8, 69u8, 45u8, 69u8, 68u8, 73u8, 84u8]
}

/// The positions of the `Word` tokens among `ts`, in order.
pub open spec fn word_positions(ts: Seq<Tok>) -> Seq<int>
    decreases ts.len(),
{
    if ts.len() == 0 {
        Seq::empty()
    } else {
        word_positions(ts.drop_last()) + (if ts.last().kind == Kind::Word { seq![ts.len() - 1] } else { Seq::empty() })
    }
}

/// The edit target: the `Word` token nearest the middle of the words, or
/// `None` when there is no word.
pub open spec fn middle_word_spec(ts: Seq<Tok>) -> Option<int> {
    let w = word_positions(ts);
    if w.len() == 0 { None } else { Some(w[(w.len() / 2) as int]) }
}

proof fn lemma_word_positions(ts: Seq<Tok>)
    ensures
        forall|k: int| 0 <= k < word_positions(ts).len() ==> 0 <= #[trigger] word_positions(ts)[k] < ts.len(),
        word_positions(ts).len() <= ts.len(),
    decreases ts.len(),
{
    if ts.len() > 0 {
        lemma_word_positions(ts.drop_last());
    }
}

/// The index of the `Word` token nearest the middle of the words: the
/// deterministic edit target.
pub fn middle_word(lexed: &Lexed) -> (r: Option<usize>)
    ensures
        match r {
            Some(i) => middle_word_spec(lexed.toks@) == Some(i as int),
            None => middle_word_spec(lexed.toks@) is None,
        },
{
    let ghost ts = lexed.toks@;
    let mut words: Vec<usize> = Vec::new();
    let mut i: usize = 0;
    while i < lexed.toks.len()
        invariant
            ts == lexed.toks@,
            i <= ts.len(),
            words@.len() == word_positions(ts.take(i as int)).len(),
            forall|k: int| 0 <= k < words@.len() ==> words@[k] as int == #[trigger] word_positions(ts.take(i as int))[k],
        decreases ts.len() - i,
    {
        proof {
            assert(ts.take(i + 1).drop_last() =~= ts.take(i as int));
            assert(ts.take(i + 1).last() == ts[i as int]);
        }
        if lexed.toks[i].kind == Kind::Word {
            words.push(i);
        }
        i = i + 1;
    }
    proof {
        assert(ts.take(i as int) =~= ts);
    }
    if words.len() == 0 {
        None
    } else {
        Some(words[words.len() / 2])
    }
}

/// What the input must read after token `tok` is replaced by `text`: the
/// bytes before it, `text`, and the bytes after it.
pub fn expected_after_edit(src: &[u8], tok: Tok, text: &[u8]) -> (out: Vec<u8>)
    requires
        tok_end(tok) <= src@.len(),
    ensures
        out@ == src@.take(tok.start as int) + text@ + src@.skip(tok_end(tok)),
{
    let n = src.len();
    let a = tok.start as usize;
    let b = a + tok.len as usize;
    let mut out: Vec<u8> = Vec::new();
    let mut i: usize = 0;
    while i < a
        invariant
            a <= b <= src@.len(),
            i <= a,
            out@ == src@.take(i as int),
        decreases a - i,
    {
        out.push(src[i]);
        proof {
            assert(src@.take(i + 1) =~= src@.take(i as int).push(src@[i as int]));
        }
        i = i + 1;
    }
    let ghost head = out@;
    let mut k: usize = 0;
    while k < text.len()
        invariant
            out@ == head + text@.take(k as int),
            k <= text@.len(),
        decreases text@.len() - k,
    {
        out.push(text[k]);
        proof {
            assert(text@.take(k + 1) =~= text@.take(k as int).push(text@[k as int]));
            assert(head + text@.take(k + 1) =~= (head + text@.take(k as int)).push(text@[k as int]));
        }
        k = k + 1;
    }
    proof {
        assert(text@.take(k as int) =~= text@);
    }
    let ghost mid = out@;
    let mut j: usize = b;
    proof {
        assert(src@.subrange(b as int, b as int) =~= Seq::<u8>::empty());
        assert(mid + Seq::<u8>::empty() =~= mid);
    }
    while j < src.len()
        invariant
            b <= j <= src@.len(),
            out@ == mid + src@.subrange(b as int, j as int),
        decreases src@.len() - j,
    {
        out.push(src[j]);
        proof {
            assert(src@.subrange(b as int, j + 1) =~= src@.subrange(b as int, j as int).push(src@[j as int]));
            assert(mid + src@.subrange(b as int, j + 1) =~= (mid + src@.subrange(b as int, j as int)).push(src@[j as int]));
        }
        j = j + 1;
    }
    proof {
        assert(src@.subrange(b as int, j as int) =~= src@.skip(tok_end(tok)));
    }
    out
}

/// The range token `n` must occupy in the source: straight from the
/// tokenizer.
pub fn expected_range(lexed: &Lexed, n: usize) -> (r: (u32, u32))
    requires
        n < lexed.toks@.len(),
        tok_end(lexed.toks@[n as int]) <= u32::MAX,
    ensures
        r == (lexed.toks@[n as int].start, tok_end(lexed.toks@[n as int]) as u32),
{
    let tok = lexed.toks[n];
    (tok.start, tok.start + tok.len)
}

} // verus!
