//! The green/red tree. An immutable, refcounted green tree holds kinds, text
//! lengths and children, with no parent pointers and no absolute offsets;
//! identical short tokens are interned and shared. A red layer, made on
//! demand, adds the parent chain and the absolute offset. Edits are
//! persistent: replacing a token rebuilds only the spine above it and shares
//! every untouched subtree, and the old root stays valid.
use super::arena::lines_toks;
use super::lex::{
    fits, is_plan, lemma_lex_is_lossless, line_text, lines_text, lemma_lines_cover, lexes, tok_bytes, tok_end, toks_text, Kind,
    Lexed, LineSpan, Tok,
};
use super::owned::{flat, lemma_flat_append, lemma_flat_tok_texts, tok_texts};
use std::rc::Rc;
use vstd::prelude::*;

verus! {

/// A leaf: a kind and its bytes.
#[derive(Debug)]
pub struct GreenToken {
    /// What it is.
    pub kind: Kind,
    /// Its bytes.
    pub text: Vec<u8>,
}

/// A green node's child, shared.
#[derive(Debug)]
pub enum GreenChild {
    /// A nested node.
    Node(Rc<GreenNode>),
    /// A leaf.
    Token(Rc<GreenToken>),
}

/// An interior node: a kind, the byte length it covers, and its children.
#[derive(Debug)]
pub struct GreenNode {
    /// What it is.
    pub kind: Kind,
    /// Bytes covered by this node and everything under it.
    pub text_len: u32,
    /// Its children, in document order.
    pub children: Vec<GreenChild>,
}

/// A whole green tree and how often building it reused an interned token.
#[derive(Debug)]
pub struct Tree {
    /// The document node.
    pub root: Rc<GreenNode>,
    /// Tokens found already interned.
    pub intern_hits: usize,
    /// Tokens made afresh.
    pub intern_misses: usize,
}

// --- what a tree holds ----------------------------------------------------------

/// The bytes under a child, in document order.
pub open spec fn child_text(c: GreenChild) -> Seq<u8>
    decreases c, 0nat,
{
    match c {
        GreenChild::Token(t) => t.text@,
        GreenChild::Node(n) => text_upto(*n, n.children@.len()),
    }
}

/// The bytes under a node's first `k` children.
pub open spec fn text_upto(n: GreenNode, k: nat) -> Seq<u8>
    decreases n, k,
{
    if k == 0 || k > n.children@.len() {
        Seq::empty()
    } else {
        text_upto(n, (k - 1) as nat) + child_text(n.children@[k - 1])
    }
}

/// The bytes under a node.
pub open spec fn node_text(n: GreenNode) -> Seq<u8> {
    text_upto(n, n.children@.len())
}

/// Nodes and tokens under a child, itself included: `(nodes, tokens)`.
pub open spec fn child_counts(c: GreenChild) -> (nat, nat)
    decreases c, 0nat,
{
    match c {
        GreenChild::Token(_) => (0, 1),
        GreenChild::Node(n) => {
            let (a, b) = counts_upto(*n, n.children@.len());
            (a + 1, b)
        },
    }
}

/// Nodes and tokens under a node's first `k` children.
pub open spec fn counts_upto(n: GreenNode, k: nat) -> (nat, nat)
    decreases n, k,
{
    if k == 0 || k > n.children@.len() {
        (0, 0)
    } else {
        let (a, b) = counts_upto(n, (k - 1) as nat);
        let (c, d) = child_counts(n.children@[k - 1]);
        (a + c, b + d)
    }
}

/// The bytes under a shared node.
pub open spec fn rc_text(n: Rc<GreenNode>) -> Seq<u8> {
    node_text(*n)
}

/// Nodes and tokens under a shared node.
pub open spec fn rc_counts(n: Rc<GreenNode>) -> (nat, nat) {
    node_counts(*n)
}

/// Nodes (itself included) and tokens in a node's subtree.
pub open spec fn node_counts(n: GreenNode) -> (nat, nat) {
    let (a, b) = counts_upto(n, n.children@.len());
    (a + 1, b)
}

/// Whether a child, and every node under it, records its true length.
pub open spec fn faithful_child(c: GreenChild) -> bool
    decreases c, 0nat,
{
    match c {
        GreenChild::Token(t) => t.text@.len() <= u32::MAX,
        GreenChild::Node(n) => faithful_upto(*n, n.children@.len()) && n.text_len == text_upto(*n, n.children@.len()).len(),
    }
}

/// Whether a node's first `k` children are faithful.
pub open spec fn faithful_upto(n: GreenNode, k: nat) -> bool
    decreases n, k,
{
    if k == 0 || k > n.children@.len() {
        true
    } else {
        faithful_upto(n, (k - 1) as nat) && faithful_child(n.children@[k - 1])
    }
}

/// Whether a node, and every node under it, records its true length.
pub open spec fn faithful(n: GreenNode) -> bool {
    faithful_upto(n, n.children@.len()) && n.text_len == node_text(n).len()
}

/// The bytes under a sequence of children.
pub open spec fn seq_text(s: Seq<GreenChild>) -> Seq<u8>
    decreases s.len(),
{
    if s.len() == 0 { Seq::empty() } else { seq_text(s.drop_last()) + child_text(s.last()) }
}

/// Nodes and tokens under a sequence of children.
pub open spec fn seq_counts(s: Seq<GreenChild>) -> (nat, nat)
    decreases s.len(),
{
    if s.len() == 0 {
        (0, 0)
    } else {
        let (a, b) = seq_counts(s.drop_last());
        let (c, d) = child_counts(s.last());
        (a + c, b + d)
    }
}

/// The texts of the tokens under a child, in document order.
pub open spec fn child_tokens(c: GreenChild) -> Seq<Seq<u8>>
    decreases c, 0nat,
{
    match c {
        GreenChild::Token(t) => seq![t.text@],
        GreenChild::Node(n) => tokens_upto(*n, n.children@.len()),
    }
}

/// The texts of the tokens under a node's first `k` children.
pub open spec fn tokens_upto(n: GreenNode, k: nat) -> Seq<Seq<u8>>
    decreases n, k,
{
    if k == 0 || k > n.children@.len() {
        Seq::empty()
    } else {
        tokens_upto(n, (k - 1) as nat) + child_tokens(n.children@[k - 1])
    }
}

/// The texts of the tokens under a node, in document order.
pub open spec fn node_tokens(n: GreenNode) -> Seq<Seq<u8>> {
    tokens_upto(n, n.children@.len())
}

/// The texts of the tokens under a shared node.
pub open spec fn rc_tokens(n: Rc<GreenNode>) -> Seq<Seq<u8>> {
    node_tokens(*n)
}

/// The texts of the tokens under a sequence of children.
pub open spec fn seq_tokens(s: Seq<GreenChild>) -> Seq<Seq<u8>>
    decreases s.len(),
{
    if s.len() == 0 { Seq::empty() } else { seq_tokens(s.drop_last()) + child_tokens(s.last()) }
}

/// Whether every child of a sequence is faithful.
pub open spec fn all_faithful(s: Seq<GreenChild>) -> bool {
    forall|i: int| 0 <= i < s.len() ==> #[trigger] faithful_child(s[i])
}

proof fn lemma_upto(n: &GreenNode, k: nat)
    requires
        k <= n.children@.len(),
    ensures
        text_upto(*n, k) == seq_text(n.children@.take(k as int)),
        counts_upto(*n, k) == seq_counts(n.children@.take(k as int)),
        faithful_upto(*n, k) == all_faithful(n.children@.take(k as int)),
        tokens_upto(*n, k) == seq_tokens(n.children@.take(k as int)),
    decreases k,
{
    if k > 0 {
        lemma_upto(n, (k - 1) as nat);
        let t = n.children@.take(k as int);
        assert(t.drop_last() =~= n.children@.take(k - 1));
        if faithful_upto(*n, k) {
            assert forall|i: int| 0 <= i < t.len() implies #[trigger] faithful_child(t[i]) by {
                if i < k - 1 {
                    assert(t[i] == n.children@.take(k - 1)[i]);
                }
            }
        }
        if all_faithful(t) {
            assert(faithful_child(t[k - 1]));
            assert forall|i: int| 0 <= i < t.drop_last().len() implies #[trigger] faithful_child(t.drop_last()[i]) by {
                assert(t.drop_last()[i] == t[i]);
            }
        }
    } else {
        assert(n.children@.take(0).len() == 0);
    }
}

/// A node's text, counts and faithfulness are those of its children.
pub proof fn lemma_node(n: &GreenNode)
    ensures
        node_text(*n) == seq_text(n.children@),
        node_counts(*n) == (seq_counts(n.children@).0 + 1, seq_counts(n.children@).1),
        faithful(*n) == (all_faithful(n.children@) && n.text_len == seq_text(n.children@).len()),
        node_tokens(*n) == seq_tokens(n.children@),
{
    lemma_upto(n, n.children@.len());
    assert(n.children@.take(n.children@.len() as int) =~= n.children@);
}

proof fn lemma_seq_append(a: Seq<GreenChild>, b: Seq<GreenChild>)
    ensures
        seq_text(a + b) == seq_text(a) + seq_text(b),
        seq_counts(a + b) == (seq_counts(a).0 + seq_counts(b).0, seq_counts(a).1 + seq_counts(b).1),
        seq_tokens(a + b) == seq_tokens(a) + seq_tokens(b),
    decreases b.len(),
{
    if b.len() == 0 {
        assert(a + b =~= a);
    } else {
        assert((a + b).drop_last() =~= a + b.drop_last());
        lemma_seq_append(a, b.drop_last());
    }
}

proof fn lemma_seq_single(c: GreenChild)
    ensures
        seq_text(seq![c]) == child_text(c),
        seq_counts(seq![c]) == child_counts(c),
        seq_tokens(seq![c]) == child_tokens(c),
{
    let s = seq![c];
    assert(s.drop_last() =~= Seq::<GreenChild>::empty());
    assert(s.last() == c);
    assert(seq_text(Seq::<GreenChild>::empty()) == Seq::<u8>::empty());
    assert(seq_counts(Seq::<GreenChild>::empty()) == (0nat, 0nat));
    assert(Seq::<u8>::empty() + child_text(c) =~= child_text(c));
    assert(seq_tokens(Seq::<GreenChild>::empty()) == Seq::<Seq<u8>>::empty());
    assert(Seq::<Seq<u8>>::empty() + child_tokens(c) =~= child_tokens(c));
}

proof fn lemma_seq_split(s: Seq<GreenChild>, i: int)
    requires
        0 <= i < s.len(),
    ensures
        seq_text(s) == seq_text(s.take(i)) + child_text(s[i]) + seq_text(s.skip(i + 1)),
        seq_counts(s).0 == seq_counts(s.take(i)).0 + child_counts(s[i]).0 + seq_counts(s.skip(i + 1)).0,
        seq_counts(s).1 == seq_counts(s.take(i)).1 + child_counts(s[i]).1 + seq_counts(s.skip(i + 1)).1,
{
    assert(s =~= s.take(i) + seq![s[i]] + s.skip(i + 1));
    lemma_seq_append(s.take(i) + seq![s[i]], s.skip(i + 1));
    lemma_seq_append(s.take(i), seq![s[i]]);
    lemma_seq_single(s[i]);
}

/// The length a child reports: a node's recorded length, a token's length.
pub open spec fn reported_len(c: GreenChild) -> nat {
    match c {
        GreenChild::Node(n) => n.text_len as nat,
        GreenChild::Token(t) => t.text@.len(),
    }
}

proof fn lemma_faithful_reported(c: GreenChild)
    requires
        faithful_child(c),
    ensures
        reported_len(c) == child_text(c).len(),
{
    match c {
        GreenChild::Node(n) => {
            lemma_node(&*n);
        },
        GreenChild::Token(_) => {},
    }
}

// --- building -------------------------------------------------------------------

/// Interned tokens: each entry's token has the entry's kind and bytes.
struct Interner {
    entries: Vec<(Kind, Vec<u8>, Rc<GreenToken>)>,
    hits: usize,
    misses: usize,
}

/// Whether every interned token matches its key.
spec fn interned_ok(es: Seq<(Kind, Vec<u8>, Rc<GreenToken>)>) -> bool {
    forall|i: int| 0 <= i < es.len() ==> (#[trigger] es[i]).2.kind == es[i].0 && es[i].2.text@ == es[i].1@
}

fn same_bytes(a: &[u8], b: &[u8]) -> (r: bool)
    ensures
        r == (a@ == b@),
{
    if a.len() != b.len() {
        return false;
    }
    let mut i: usize = 0;
    while i < a.len()
        invariant
            a@.len() == b@.len(),
            i <= a@.len(),
            forall|k: int| 0 <= k < i ==> a@[k] == b@[k],
        decreases a@.len() - i,
    {
        if a[i] != b[i] {
            return false;
        }
        i = i + 1;
    }
    proof {
        assert(a@ =~= b@);
    }
    true
}

impl Interner {
    /// A token of this kind and text, shared with an earlier one when there
    /// is one. Long tokens are rarely repeated and are not interned.
    fn token(&mut self, kind: Kind, text: &[u8]) -> (t: Rc<GreenToken>)
        requires
            old(self).hits + old(self).misses < usize::MAX,
            interned_ok(old(self).entries@),
        ensures
            t.kind == kind,
            t.text@ == text@,
            final(self).hits + final(self).misses == old(self).hits + old(self).misses + 1,
            interned_ok(final(self).entries@),
    {
        if text.len() > 64 {
            self.misses = self.misses + 1;
            return Rc::new(GreenToken { kind, text: vstd::slice::slice_to_vec(text) });
        }
        let mut i: usize = 0;
        while i < self.entries.len()
            invariant
                i <= self.entries@.len(),
                interned_ok(self.entries@),
                self.hits == old(self).hits,
                self.misses == old(self).misses,
                old(self).hits + old(self).misses < usize::MAX,
            decreases self.entries@.len() - i,
        {
            let entry = &self.entries[i];
            if entry.0 == kind && same_bytes(entry.1.as_slice(), text) {
                proof {
                    assert(interned_ok(self.entries@));
                    assert(self.entries@[i as int].2.kind == kind);
                }
                let found = Rc::clone(&entry.2);
                self.hits = self.hits + 1;
                return found;
            }
            i = i + 1;
        }
        self.misses = self.misses + 1;
        let tok = Rc::new(GreenToken { kind, text: vstd::slice::slice_to_vec(text) });
        let key = vstd::slice::slice_to_vec(text);
        let ghost before = self.entries@;
        self.entries.push((kind, key, Rc::clone(&tok)));
        proof {
            assert forall|k: int| 0 <= k < self.entries@.len() implies (#[trigger] self.entries@[k]).2.kind == self.entries@[k].0
                && self.entries@[k].2.text@ == self.entries@[k].1@ by {
                if k < before.len() {
                    assert(self.entries@[k] == before[k]);
                }
            }
        }
        tok
    }
}

/// The text of a stack of finished lines, top (last) first.
pub open spec fn pending_text(p: Seq<(u32, Rc<GreenNode>)>) -> Seq<u8>
    decreases p.len(),
{
    if p.len() == 0 { Seq::empty() } else { node_text(*p.last().1) + pending_text(p.drop_last()) }
}

/// The token texts of a stack of finished lines, top (last) first.
pub open spec fn pending_tokens(p: Seq<(u32, Rc<GreenNode>)>) -> Seq<Seq<u8>>
    decreases p.len(),
{
    if p.len() == 0 { Seq::empty() } else { node_tokens(*p.last().1) + pending_tokens(p.drop_last()) }
}

/// Nodes and tokens of a stack of finished lines.
pub open spec fn pending_counts(p: Seq<(u32, Rc<GreenNode>)>) -> (nat, nat)
    decreases p.len(),
{
    if p.len() == 0 {
        (0, 0)
    } else {
        let (a, b) = pending_counts(p.drop_last());
        let (c, d) = node_counts(*p.last().1);
        (a + c, b + d)
    }
}

/// Whether every finished line on the stack is faithful.
pub open spec fn pending_faithful(p: Seq<(u32, Rc<GreenNode>)>) -> bool {
    forall|i: int| 0 <= i < p.len() ==> faithful(*(#[trigger] p[i]).1)
}

/// Token counts of lines `a..b`.
pub open spec fn lines_tokens(ls: Seq<LineSpan>, a: int, b: int) -> nat
    decreases b - a,
{
    if a >= b { 0 } else { (ls[a].end - ls[a].first) as nat + lines_tokens(ls, a + 1, b) }
}

/// The token children of a line, interned.
fn line_tokens(src: &[u8], toks: &Vec<Tok>, first: usize, end: usize, interner: &mut Interner) -> (r: Vec<GreenChild>)
    requires
        first <= end <= toks@.len(),
        forall|k: int| 0 <= k < toks@.len() ==> tok_end(#[trigger] toks@[k]) <= src@.len(),
        src@.len() <= u32::MAX,
        old(interner).hits + old(interner).misses + (end - first) < usize::MAX,
        interned_ok(old(interner).entries@),
    ensures
        seq_text(r@) == toks_text(src@, toks@.subrange(first as int, end as int)),
        seq_counts(r@) == (0nat, (end - first) as nat),
        seq_tokens(r@) == tok_texts(src@, toks@.subrange(first as int, end as int)),
        all_faithful(r@),
        final(interner).hits + final(interner).misses == old(interner).hits + old(interner).misses + (end - first),
        interned_ok(final(interner).entries@),
{
    let mut out: Vec<GreenChild> = Vec::new();
    let mut k = first;
    let n = src.len();
    proof {
        assert(toks@.subrange(first as int, first as int) =~= Seq::<Tok>::empty());
    }
    while k < end
        invariant
            n == src@.len(),
            n <= u32::MAX,
            first <= k <= end <= toks@.len(),
            forall|m: int| 0 <= m < toks@.len() ==> tok_end(#[trigger] toks@[m]) <= src@.len(),
            seq_text(out@) == toks_text(src@, toks@.subrange(first as int, k as int)),
            seq_counts(out@) == (0nat, (k - first) as nat),
            seq_tokens(out@) == tok_texts(src@, toks@.subrange(first as int, k as int)),
            all_faithful(out@),
            interner.hits + interner.misses == old(interner).hits + old(interner).misses + (k - first),
            old(interner).hits + old(interner).misses + (end - first) < usize::MAX,
            interned_ok(interner.entries@),
        decreases end - k,
    {
        let t = toks[k];
        proof {
            assert(tok_end(toks@[k as int]) <= src@.len());
        }
        let bytes = &src[t.start as usize..(t.start as usize + t.len as usize)];
        let g = interner.token(t.kind, bytes);
        let c = GreenChild::Token(g);
        let ghost before = out@;
        out.push(c);
        proof {
            assert(out@.drop_last() == before);
            assert(toks@.subrange(first as int, k + 1).drop_last() =~= toks@.subrange(first as int, k as int));
            assert(bytes@ == tok_bytes(src@, t));
            assert(tok_texts(src@, toks@.subrange(first as int, k + 1)) =~= tok_texts(src@, toks@.subrange(first as int, k as int)).push(
                tok_bytes(src@, t)));
            assert(child_tokens(c) == seq![bytes@]);
            assert(seq_tokens(out@) =~= tok_texts(src@, toks@.subrange(first as int, k + 1)));
            assert forall|i: int| 0 <= i < out@.len() implies #[trigger] faithful_child(out@[i]) by {
                if i < before.len() {
                    assert(out@[i] == before[i]);
                }
            }
        }
        k = k + 1;
    }
    out
}

/// The reported lengths of some children, summed.
pub open spec fn reported_sum(s: Seq<GreenChild>) -> nat
    decreases s.len(),
{
    if s.len() == 0 { 0 } else { reported_sum(s.drop_last()) + reported_len(s.last()) }
}

proof fn lemma_reported_sum(s: Seq<GreenChild>)
    requires
        all_faithful(s),
    ensures
        reported_sum(s) == seq_text(s).len(),
    decreases s.len(),
{
    if s.len() > 0 {
        assert(faithful_child(s[s.len() - 1]));
        lemma_faithful_reported(s.last());
        assert forall|i: int| 0 <= i < s.drop_last().len() implies #[trigger] faithful_child(s.drop_last()[i]) by {
            assert(s.drop_last()[i] == s[i]);
        }
        lemma_reported_sum(s.drop_last());
    }
}

/// A node of kind `kind` over faithful children, recording their length.
fn make_node(kind: Kind, children: Vec<GreenChild>) -> (n: GreenNode)
    requires
        all_faithful(children@),
        seq_text(children@).len() <= u32::MAX,
    ensures
        n.kind == kind,
        n.children@ == children@,
        faithful(n),
        node_text(n) == seq_text(children@),
        node_counts(n) == (seq_counts(children@).0 + 1, seq_counts(children@).1),
        node_tokens(n) == seq_tokens(children@),
{
    proof {
        lemma_reported_sum(children@);
    }
    let mut total: u32 = 0;
    let mut i: usize = 0;
    proof {
        assert(children@.take(0) =~= Seq::<GreenChild>::empty());
    }
    while i < children.len()
        invariant
            i <= children@.len(),
            all_faithful(children@),
            reported_sum(children@) == seq_text(children@).len(),
            seq_text(children@).len() <= u32::MAX,
            total == reported_sum(children@.take(i as int)),
        decreases children@.len() - i,
    {
        proof {
            let t = children@.take(i + 1);
            assert(t.drop_last() =~= children@.take(i as int));
            assert(all_faithful(t)) by {
                assert forall|k: int| 0 <= k < t.len() implies #[trigger] faithful_child(t[k]) by {
                    assert(t[k] == children@[k]);
                }
            }
            assert(all_faithful(children@.take(i as int))) by {
                assert forall|k: int| 0 <= k < i implies #[trigger] faithful_child(children@.take(i as int)[k]) by {
                    assert(children@.take(i as int)[k] == children@[k]);
                }
            }
            lemma_reported_sum(t);
            lemma_reported_sum(children@.take(i as int));
            lemma_seq_split(children@, i as int);
            assert(children@ =~= t + children@.skip(i + 1));
            lemma_seq_append(t, children@.skip(i + 1));
            assert(faithful_child(children@[i as int]));
            lemma_faithful_reported(children@[i as int]);
        }
        let add: u32 = match &children[i] {
            GreenChild::Node(node) => node.text_len,
            GreenChild::Token(tok) => tok.text.len() as u32,
        };
        total = total + add;
        i = i + 1;
    }
    proof {
        assert(children@.take(i as int) =~= children@);
    }
    let n = GreenNode { kind, text_len: total, children };
    proof {
        lemma_node(&n);
    }
    n
}

/// Build line `j`'s node: its tokens, then the finished lines on top of
/// `pending` whose parent is `j`.
fn build_line(src: &[u8], lexed: &Lexed, parents: &[u32], j: usize, pending: &mut Vec<(u32, Rc<GreenNode>)>,
    interner: &mut Interner)
    requires
        j < lexed.lines@.len(),
        j < parents@.len(),
        fits(src@, lexed.toks@, lexed.lines@),
        src@.len() <= u32::MAX,
        pending_faithful(old(pending)@),
        line_text(src@, lexed.toks@, lexed.lines@[j as int]).len() + pending_text(old(pending)@).len() <= u32::MAX,
        old(interner).hits + old(interner).misses + (lexed.lines@[j as int].end - lexed.lines@[j as int].first) < usize::MAX,
        interned_ok(old(interner).entries@),
    ensures
        pending_faithful(final(pending)@),
        pending_text(final(pending)@) == line_text(src@, lexed.toks@, lexed.lines@[j as int]) + pending_text(old(pending)@),
        pending_counts(final(pending)@) == (pending_counts(old(pending)@).0 + 1,
            pending_counts(old(pending)@).1 + (lexed.lines@[j as int].end - lexed.lines@[j as int].first) as nat),
        final(interner).hits + final(interner).misses == old(interner).hits + old(interner).misses
            + (lexed.lines@[j as int].end - lexed.lines@[j as int].first),
        interned_ok(final(interner).entries@),
        pending_tokens(final(pending)@) == tok_texts(src@, lexed.toks@.subrange(lexed.lines@[j as int].first as int,
            lexed.lines@[j as int].end as int)) + pending_tokens(old(pending)@),
{
    let line = lexed.lines[j];
    let ghost own = line_text(src@, lexed.toks@, line);
    let ghost p0 = pending@;
    let mut children = line_tokens(src, &lexed.toks, line.first as usize, line.end as usize, interner);
    let ghost own_tokens = (line.end - line.first) as nat;
    let ghost own_texts = tok_texts(src@, lexed.toks@.subrange(line.first as int, line.end as int));
    while pending.len() > 0 && pending[pending.len() - 1].0 as usize == j
        invariant
            pending_faithful(pending@),
            all_faithful(children@),
            seq_tokens(children@) + pending_tokens(pending@) == own_texts + pending_tokens(p0),
            seq_text(children@) + pending_text(pending@) == own + pending_text(p0),
            seq_counts(children@).0 + pending_counts(pending@).0 == pending_counts(p0).0,
            seq_counts(children@).1 + pending_counts(pending@).1 == own_tokens + pending_counts(p0).1,
        decreases pending@.len(),
    {
        let ghost before = pending@;
        let ghost kids = children@;
        let (_, node) = pending.pop().unwrap();
        proof {
            assert(pending@ == before.drop_last());
            assert(node == before.last().1);
            assert(faithful(*before[before.len() - 1].1));
            assert forall|i: int| 0 <= i < pending@.len() implies faithful(*(#[trigger] pending@[i]).1) by {
                assert(pending@[i] == before[i]);
            }
            lemma_seq_append(kids, seq![GreenChild::Node(node)]);
            lemma_seq_single(GreenChild::Node(node));
            lemma_node(&*node);
            let nt = rc_text(node);
            assert(child_text(GreenChild::Node(node)) == nt);
            vstd::seq_lib::lemma_concat_associative(seq_text(kids), nt, pending_text(pending@));
            assert(child_tokens(GreenChild::Node(node)) == node_tokens(*node));
            assert(pending_tokens(before) == node_tokens(*node) + pending_tokens(pending@));
            vstd::seq_lib::lemma_concat_associative(seq_tokens(kids), rc_tokens(node), pending_tokens(pending@));
        }
        children.push(GreenChild::Node(node));
        proof {
            assert(children@ == kids + seq![GreenChild::Node(node)]);
            assert forall|i: int| 0 <= i < children@.len() implies #[trigger] faithful_child(children@[i]) by {
                if i < kids.len() {
                    assert(children@[i] == kids[i]);
                }
            }
        }
    }
    let node = make_node(Kind::Line, children);
    let parent = parents[j];
    let rc = Rc::new(node);
    proof {
        let e = (parent, rc);
        assert(pending@.push(e).drop_last() == pending@);
        vstd::seq_lib::lemma_concat_associative(node_text(node), pending_text(pending@), Seq::<u8>::empty());
        assert(pending@.push(e).last() == e);
        assert(pending_tokens(pending@.push(e)) == node_tokens(node) + pending_tokens(pending@));
    }
    let ghost before = pending@;
    pending.push((parent, rc));
    proof {
        assert forall|i: int| 0 <= i < pending@.len() implies faithful(*(#[trigger] pending@[i]).1) by {
            if i < before.len() {
                assert(pending@[i] == before[i]);
            }
        }
    }
}

/// Build the green tree for a lexed input, interning tokens: one `Line`
/// node per line, holding its tokens and then the lines nested under it,
/// under a `Document` root. `parents` is the nesting plan
/// [`super::lex::nesting`] computes for the lines. The tree records its
/// lengths faithfully and its text is the lines' text in order, so for a
/// lexed input it is the input itself.
pub fn build(src: &[u8], lexed: &Lexed, parents: &[u32]) -> (tree: Tree)
    requires
        fits(src@, lexed.toks@, lexed.lines@),
        is_plan(lexed.lines@, parents@),
        src@.len() <= u32::MAX,
        lines_text(src@, lexed.toks@, lexed.lines@, 0, lexed.lines@.len() as int).len() <= u32::MAX,
        lines_tokens(lexed.lines@, 0, lexed.lines@.len() as int) < usize::MAX,
    ensures
        tree.root.kind == Kind::Document,
        faithful(*tree.root),
        node_text(*tree.root) == lines_text(src@, lexed.toks@, lexed.lines@, 0, lexed.lines@.len() as int),
        node_counts(*tree.root) == (lexed.lines@.len() + 1, lines_tokens(lexed.lines@, 0, lexed.lines@.len() as int)),
        tree.intern_hits + tree.intern_misses == lines_tokens(lexed.lines@, 0, lexed.lines@.len() as int),
        lexes(src@, lexed.toks@, lexed.lines@) ==> node_text(*tree.root) == src@,
        node_tokens(*tree.root) == tok_texts(src@, lines_toks(lexed.toks@, lexed.lines@, 0, lexed.lines@.len() as int)),
{
    let n = lexed.lines.len();
    let mut interner = Interner { entries: Vec::new(), hits: 0, misses: 0 };
    let mut pending: Vec<(u32, Rc<GreenNode>)> = Vec::new();
    let ghost total_text = lines_text(src@, lexed.toks@, lexed.lines@, 0, n as int);
    let ghost total_tokens = lines_tokens(lexed.lines@, 0, n as int);
    let mut j = n;
    proof {
        lemma_lines_suffix(src@, lexed.toks@, lexed.lines@, n as int);
    }
    while j > 0
        invariant
            j <= n == lexed.lines@.len(),
            parents@.len() == n,
            fits(src@, lexed.toks@, lexed.lines@),
            src@.len() <= u32::MAX,
            total_text == lines_text(src@, lexed.toks@, lexed.lines@, 0, n as int),
            total_text.len() <= u32::MAX,
            total_tokens == lines_tokens(lexed.lines@, 0, n as int),
            total_tokens < usize::MAX,
            pending_faithful(pending@),
            pending_text(pending@) == lines_text(src@, lexed.toks@, lexed.lines@, j as int, n as int),
            pending_counts(pending@) == ((n - j) as nat, lines_tokens(lexed.lines@, j as int, n as int)),
            interner.hits + interner.misses == lines_tokens(lexed.lines@, j as int, n as int),
            interned_ok(interner.entries@),
            pending_tokens(pending@) == tok_texts(src@, lines_toks(lexed.toks@, lexed.lines@, j as int, n as int)),
        decreases j,
    {
        j = j - 1;
        proof {
            lemma_lines_split(src@, lexed.toks@, lexed.lines@, j as int, n as int);
        }
        build_line(src, lexed, parents, j, &mut pending, &mut interner);
        proof {
            let l = lexed.lines@[j as int];
            assert(lines_toks(lexed.toks@, lexed.lines@, j as int, n as int) == lexed.toks@.subrange(l.first as int, l.end as int)
                + lines_toks(lexed.toks@, lexed.lines@, j + 1, n as int));
            assert(tok_texts(src@, lines_toks(lexed.toks@, lexed.lines@, j as int, n as int)) =~= tok_texts(src@,
                lexed.toks@.subrange(l.first as int, l.end as int)) + tok_texts(src@, lines_toks(lexed.toks@, lexed.lines@, j + 1, n as int)));
        }
    }
    let mut doc: Vec<GreenChild> = Vec::new();
    let ghost total_counts = pending_counts(pending@);
    let ghost all_tokens = pending_tokens(pending@);
    proof {
        assert(pending_tokens(pending@) =~= Seq::<Seq<u8>>::empty() + pending_tokens(pending@));
    }
    while pending.len() > 0
        invariant
            pending_faithful(pending@),
            all_faithful(doc@),
            seq_tokens(doc@) + pending_tokens(pending@) == all_tokens,
            seq_text(doc@) + pending_text(pending@) == total_text,
            seq_counts(doc@).0 + pending_counts(pending@).0 == total_counts.0,
            seq_counts(doc@).1 + pending_counts(pending@).1 == total_counts.1,
        decreases pending@.len(),
    {
        let ghost before = pending@;
        let ghost kids = doc@;
        let (_, node) = pending.pop().unwrap();
        proof {
            assert(pending@ == before.drop_last());
            assert(node == before.last().1);
            assert(faithful(*before[before.len() - 1].1));
            assert forall|i: int| 0 <= i < pending@.len() implies faithful(*(#[trigger] pending@[i]).1) by {
                assert(pending@[i] == before[i]);
            }
            lemma_seq_append(kids, seq![GreenChild::Node(node)]);
            lemma_seq_single(GreenChild::Node(node));
            lemma_node(&*node);
            let nt = rc_text(node);
            vstd::seq_lib::lemma_concat_associative(seq_text(kids), nt, pending_text(pending@));
            assert(child_tokens(GreenChild::Node(node)) == node_tokens(*node));
            assert(pending_tokens(before) == node_tokens(*node) + pending_tokens(pending@));
            vstd::seq_lib::lemma_concat_associative(seq_tokens(kids), rc_tokens(node), pending_tokens(pending@));
        }
        doc.push(GreenChild::Node(node));
        proof {
            assert(doc@ == kids + seq![GreenChild::Node(node)]);
            assert forall|i: int| 0 <= i < doc@.len() implies #[trigger] faithful_child(doc@[i]) by {
                if i < kids.len() {
                    assert(doc@[i] == kids[i]);
                }
            }
        }
    }
    proof {
        assert(seq_text(doc@) + Seq::<u8>::empty() =~= seq_text(doc@));
        assert(seq_tokens(doc@) + Seq::<Seq<u8>>::empty() =~= seq_tokens(doc@));
    }
    let root = make_node(Kind::Document, doc);
    proof {
        if lexes(src@, lexed.toks@, lexed.lines@) {
            lemma_lines_cover(src@, lexed.toks@, lexed.lines@);
        }
    }
    Tree { root: Rc::new(root), intern_hits: interner.hits, intern_misses: interner.misses }
}

proof fn lemma_lines_suffix(s: Seq<u8>, ts: Seq<Tok>, ls: Seq<LineSpan>, n: int)
    ensures
        lines_text(s, ts, ls, n, n) == Seq::<u8>::empty(),
        lines_tokens(ls, n, n) == 0,
{
}

/// Lines `j..n` cost no more than lines `0..n`, in bytes and in tokens.
proof fn lemma_lines_split(s: Seq<u8>, ts: Seq<Tok>, ls: Seq<LineSpan>, j: int, n: int)
    requires
        0 <= j < n,
    ensures
        line_text(s, ts, ls[j]).len() + lines_text(s, ts, ls, j + 1, n).len() <= lines_text(s, ts, ls, 0, n).len(),
        lines_text(s, ts, ls, j, n) == line_text(s, ts, ls[j]) + lines_text(s, ts, ls, j + 1, n),
        lines_tokens(ls, j, n) <= lines_tokens(ls, 0, n),
    decreases j,
{
    if j > 0 {
        lemma_lines_split(s, ts, ls, j - 1, n);
    }
}

// --- reading a tree back ---------------------------------------------------------------

/// Text of a stack of children whose top is its last element: the top first.
pub open spec fn stack_text(s: Seq<&GreenChild>) -> Seq<u8>
    decreases s.len(),
{
    if s.len() == 0 { Seq::empty() } else { child_text(*s.last()) + stack_text(s.drop_last()) }
}

/// Nodes and tokens of a stack of children.
pub open spec fn stack_size(s: Seq<&GreenChild>) -> nat
    decreases s.len(),
{
    if s.len() == 0 { 0 } else { child_counts(*s.last()).0 + child_counts(*s.last()).1 + stack_size(s.drop_last()) }
}

fn push_reversed<'a>(stack: &mut Vec<&'a GreenChild>, kids: &'a Vec<GreenChild>)
    ensures
        stack_text(final(stack)@) == seq_text(kids@) + stack_text(old(stack)@),
        stack_size(final(stack)@) == seq_counts(kids@).0 + seq_counts(kids@).1 + stack_size(old(stack)@),
{
    let mut i = kids.len();
    proof {
        assert(kids@.subrange(i as int, kids@.len() as int) =~= Seq::<GreenChild>::empty());
    }
    while i > 0
        invariant
            i <= kids@.len(),
            stack_text(stack@) == seq_text(kids@.subrange(i as int, kids@.len() as int)) + stack_text(old(stack)@),
            stack_size(stack@) == seq_counts(kids@.subrange(i as int, kids@.len() as int)).0
                + seq_counts(kids@.subrange(i as int, kids@.len() as int)).1 + stack_size(old(stack)@),
        decreases i,
    {
        i = i - 1;
        let ghost before = stack@;
        stack.push(&kids[i]);
        proof {
            assert(stack@.drop_last() == before);
            let tail = kids@.subrange(i + 1, kids@.len() as int);
            assert(kids@.subrange(i as int, kids@.len() as int) =~= seq![kids@[i as int]] + tail);
            lemma_seq_append(seq![kids@[i as int]], tail);
            lemma_seq_single(kids@[i as int]);
            vstd::seq_lib::lemma_concat_associative(child_text(kids@[i as int]), seq_text(tail), stack_text(old(stack)@));
        }
    }
    proof {
        assert(kids@.subrange(0, kids@.len() as int) =~= kids@);
    }
}

/// The tree's bytes, in document order, by an explicit-stack walk.
pub fn serialize(tree: &Tree) -> (out: Vec<u8>)
    ensures
        out@ == node_text(*tree.root),
{
    let mut out: Vec<u8> = Vec::new();
    let mut stack: Vec<&GreenChild> = Vec::new();
    let root: &GreenNode = &tree.root;
    push_reversed(&mut stack, &root.children);
    proof {
        lemma_node(root);
        assert(seq_text(root.children@) + Seq::<u8>::empty() =~= seq_text(root.children@));
    }
    while stack.len() > 0
        invariant
            out@ + stack_text(stack@) == node_text(*tree.root),
        decreases stack_size(stack@),
    {
        let ghost before = stack@;
        let child = stack.pop().unwrap();
        proof {
            assert(before.drop_last() == stack@);
        }
        match child {
            GreenChild::Token(tok) => {
                let ghost o = out@;
                out.extend_from_slice(tok.text.as_slice());
                proof {
                    vstd::seq_lib::lemma_concat_associative(o, tok.text@, stack_text(stack@));
                }
            },
            GreenChild::Node(node) => {
                let n: &GreenNode = node;
                proof {
                    lemma_node(n);
                }
                push_reversed(&mut stack, &n.children);
            },
        }
    }
    proof {
        assert(out@ + Seq::<u8>::empty() =~= out@);
    }
    out
}

/// Nodes and tokens of a stack of nodes.
pub open spec fn node_stack_counts(s: Seq<&GreenNode>) -> (nat, nat)
    decreases s.len(),
{
    if s.len() == 0 {
        (0, 0)
    } else {
        let (a, b) = node_stack_counts(s.drop_last());
        let (c, d) = node_counts(*s.last());
        (a + c, b + d)
    }
}

/// How many nodes, the root among them, and how many tokens the tree holds.
pub fn count_nodes(tree: &Tree) -> (r: (usize, usize))
    requires
        node_counts(*tree.root).0 + node_counts(*tree.root).1 <= usize::MAX,
    ensures
        r == (node_counts(*tree.root).0 as usize, node_counts(*tree.root).1 as usize),
{
    let ghost total = rc_counts(tree.root);
    let mut nodes: usize = 0;
    let mut tokens: usize = 0;
    let mut stack: Vec<&GreenNode> = Vec::new();
    let root: &GreenNode = &tree.root;
    stack.push(root);
    proof {
        assert(stack@.drop_last() =~= Seq::<&GreenNode>::empty());
        assert(node_stack_counts(Seq::<&GreenNode>::empty()) == (0nat, 0nat));
        assert(node_stack_counts(stack@) == node_counts(*tree.root));
    }
    while stack.len() > 0
        invariant
            total.0 + total.1 <= usize::MAX,
            nodes + node_stack_counts(stack@).0 == total.0,
            tokens + node_stack_counts(stack@).1 == total.1,
        decreases node_stack_counts(stack@).0 + node_stack_counts(stack@).1,
    {
        let ghost before = stack@;
        let ghost n0 = nodes;
        let ghost t0 = tokens;
        let node = stack.pop().unwrap();
        proof {
            assert(before.drop_last() == stack@);
            lemma_node(node);
        }
        nodes = nodes + 1;
        let mut i: usize = 0;
        proof {
            assert(node.children@.skip(0) =~= node.children@);
        }
        while i < node.children.len()
            invariant
                total.0 + total.1 <= usize::MAX,
                i <= node.children@.len(),
                nodes == n0 + 1,
                tokens >= t0,
                n0 + node_stack_counts(before).0 == total.0,
                t0 + node_stack_counts(before).1 == total.1,
                nodes + node_stack_counts(stack@).0 + seq_counts(node.children@.skip(i as int)).0 == total.0,
                tokens + node_stack_counts(stack@).1 + seq_counts(node.children@.skip(i as int)).1 == total.1,
            decreases node.children@.len() - i,
        {
            let c = &node.children[i];
            proof {
                let rest = node.children@.skip(i as int);
                assert(rest =~= seq![node.children@[i as int]] + node.children@.skip(i + 1));
                lemma_seq_append(seq![node.children@[i as int]], node.children@.skip(i + 1));
                lemma_seq_single(node.children@[i as int]);
            }
            match c {
                GreenChild::Node(inner) => {
                    let inner: &GreenNode = inner;
                    let ghost sb = stack@;
                    stack.push(inner);
                    proof {
                        assert(stack@.drop_last() == sb);
                        lemma_node(inner);
                    }
                },
                GreenChild::Token(_) => {
                    tokens = tokens + 1;
                },
            }
            i = i + 1;
        }
        proof {
            assert(node.children@.skip(i as int) =~= Seq::<GreenChild>::empty());
        }
    }
    (nodes, tokens)
}

// --- finding a token -----------------------------------------------------------------

/// Among children `s`, the document-order index of the token `path` leads
/// to (child indices, top down), or `None` when it leads to no token.
pub open spec fn token_index_in(s: Seq<GreenChild>, path: Seq<usize>) -> Option<nat>
    decreases path.len(),
{
    if path.len() == 0 || path[0] >= s.len() {
        None
    } else {
        let i = path[0] as int;
        let before = seq_counts(s.take(i)).1;
        match s[i] {
            GreenChild::Token(_) => if path.len() == 1 { Some(before) } else { None },
            GreenChild::Node(m) => match token_index_in(m.children@, path.drop_first()) {
                Some(k) => Some(before + k),
                None => None,
            },
        }
    }
}

/// The document-order index of the token `path` leads to from `n`.
pub open spec fn token_index(n: GreenNode, path: Seq<usize>) -> Option<nat> {
    token_index_in(n.children@, path)
}

/// Find the `n`-th token under `node`, counting down `n`; on success the
/// child indices leading to it are appended to `path`.
fn walk(node: &GreenNode, n: &mut usize, path: &mut Vec<usize>) -> (found: bool)
    ensures
        !found ==> *old(n) >= node_counts(*node).1 && *final(n) == *old(n) - node_counts(*node).1 && final(path)@ == old(path)@,
        found ==> *old(n) < node_counts(*node).1 && final(path)@.len() > old(path)@.len()
            && final(path)@.take(old(path)@.len() as int) == old(path)@
            && token_index(*node, final(path)@.skip(old(path)@.len() as int)) == Some(*old(n) as nat),
    decreases node_counts(*node).0,
{
    proof {
        lemma_node(node);
    }
    let ghost p0 = path@;
    let ghost n0 = *n;
    let mut i: usize = 0;
    proof {
        assert(node.children@.take(0) =~= Seq::<GreenChild>::empty());
    }
    while i < node.children.len()
        invariant
            i <= node.children@.len(),
            node_counts(*node) == (seq_counts(node.children@).0 + 1, seq_counts(node.children@).1),
            n0 == *old(n),
            p0 == old(path)@,
            path@ == p0,
            n0 >= seq_counts(node.children@.take(i as int)).1,
            *n == n0 - seq_counts(node.children@.take(i as int)).1,
        decreases node.children@.len() - i,
    {
        proof {
            lemma_seq_split(node.children@, i as int);
            assert(node.children@.take(i + 1) =~= node.children@.take(i as int) + seq![node.children@[i as int]]);
            lemma_seq_append(node.children@.take(i as int), seq![node.children@[i as int]]);
            lemma_seq_single(node.children@[i as int]);
        }
        match &node.children[i] {
            GreenChild::Token(_) => {
                if *n == 0 {
                    path.push(i);
                    proof {
                        assert(path@.take(p0.len() as int) =~= p0);
                        assert(path@.skip(p0.len() as int) =~= seq![i]);
                        assert(seq![i].drop_first() =~= Seq::<usize>::empty());
                        lemma_seq_split(node.children@, i as int);
                    }
                    return true;
                }
                *n = *n - 1;
            },
            GreenChild::Node(inner) => {
                let inner: &GreenNode = inner;
                path.push(i);
                proof {
                    lemma_node(inner);
                }
                let ghost pushed = path@;
                if walk(inner, n, path) {
                    proof {
                        let tail = path@.skip(pushed.len() as int);
                        assert(pushed == p0.push(i));
                        assert(path@.take(pushed.len() as int) == pushed);
                        assert(path@[p0.len() as int] == path@.take(pushed.len() as int)[p0.len() as int]);
                        assert(path@[p0.len() as int] == i);
                        assert(path@.skip(p0.len() as int) =~= seq![i] + tail);
                        assert((seq![i] + tail).drop_first() =~= tail);
                        assert(path@.take(p0.len() as int) =~= p0);
                        lemma_seq_split(node.children@, i as int);
                    }
                    return true;
                }
                path.pop();
                proof {
                    assert(path@ =~= p0);
                }
            },
        }
        i = i + 1;
    }
    proof {
        assert(node.children@.take(i as int) =~= node.children@);
    }
    false
}

/// The child indices that lead from the root to the `n`-th token in document
/// order, or `None` when there are no more than `n` tokens.
pub fn nth_token_path(tree: &Tree, n: usize) -> (r: Option<Vec<usize>>)
    ensures
        r is Some <==> n < node_counts(*tree.root).1,
        r matches Some(p) ==> token_index(*tree.root, p@) == Some(n as nat),
{
    let mut n = n;
    let mut path: Vec<usize> = Vec::new();
    let root: &GreenNode = &tree.root;
    if walk(root, &mut n, &mut path) {
        proof {
            assert(path@.skip(0) =~= path@);
        }
        Some(path)
    } else {
        None
    }
}

// --- persistent edits -------------------------------------------------------------------

/// The source range of the token an edit along `path` replaces among
/// children `s`: the token a step lands on, or `None` when the path runs out
/// of range or ends on a node.
pub open spec fn edit_target(s: Seq<GreenChild>, path: Seq<usize>) -> Option<(int, int)>
    decreases path.len(),
{
    if path.len() == 0 || path[0] >= s.len() {
        None
    } else {
        let i = path[0] as int;
        let at = seq_text(s.take(i)).len() as int;
        match s[i] {
            GreenChild::Token(t) => Some((at, at + t.text@.len())),
            GreenChild::Node(m) => match edit_target(m.children@, path.drop_first()) {
                Some((a, b)) => Some((at + a, at + b)),
                None => None,
            },
        }
    }
}

proof fn lemma_edit_bounds(s: Seq<GreenChild>, path: Seq<usize>)
    requires
        edit_target(s, path) is Some,
    ensures
        match edit_target(s, path) {
            Some((a, b)) => 0 <= a <= b <= seq_text(s).len(),
            None => true,
        },
    decreases path.len(),
{
    let i = path[0] as int;
    lemma_seq_split(s, i);
    match s[i] {
        GreenChild::Node(m) => {
            lemma_edit_bounds(m.children@, path.drop_first());
            lemma_node(&*m);
        },
        GreenChild::Token(_) => {},
    }
}

/// What replacing child `i` does to the text and counts of the children.
proof fn lemma_edited(s: Seq<GreenChild>, path: Seq<usize>, c: GreenChild, text: Seq<u8>)
    requires
        path.len() >= 1,
        0 <= path[0] < s.len(),
        child_counts(c) == child_counts(s[path[0] as int]),
        match s[path[0] as int] {
            GreenChild::Token(_) => child_text(c) == text,
            GreenChild::Node(m) => ({
                let t = seq_text(m.children@);
                match edit_target(m.children@, path.drop_first()) {
                    Some((a, b)) => child_text(c) == t.take(a) + text + t.skip(b),
                    None => child_text(c) == t,
                }
            }),
        },
    ensures
        seq_counts(s.update(path[0] as int, c)) == seq_counts(s),
        ({
            let t = seq_text(s);
            match edit_target(s, path) {
                Some((a, b)) => seq_text(s.update(path[0] as int, c)) == t.take(a) + text + t.skip(b),
                None => seq_text(s.update(path[0] as int, c)) == t,
            }
        }),
{
    let i = path[0] as int;
    let s2 = s.update(i, c);
    lemma_seq_split(s, i);
    lemma_seq_split(s2, i);
    assert(s2.take(i) =~= s.take(i));
    assert(s2.skip(i + 1) =~= s.skip(i + 1));
    let x = seq_text(s.take(i));
    let y = seq_text(s.skip(i + 1));
    let t = seq_text(s);
    let c0 = s[i];
    match c0 {
        GreenChild::Token(tk) => {
            assert(t.take(x.len() as int) =~= x);
            assert(t.skip((x.len() + tk.text@.len()) as int) =~= y);
        },
        GreenChild::Node(m) => {
            lemma_node(&*m);
            let inner = path.drop_first();
            match edit_target(m.children@, inner) {
                Some((a2, b2)) => {
                    lemma_edit_bounds(m.children@, inner);
                    let ct = child_text(c0);
                    assert(ct == seq_text(m.children@));
                    assert(t.take(x.len() + a2) =~= x + ct.take(a2));
                    assert(t.skip(x.len() + b2) =~= ct.skip(b2) + y);
                },
                None => {},
            }
        },
    }
}

/// Replace the text of the token `path` leads to and return a new root.
/// Only the spine from that token up is rebuilt; every other subtree is
/// shared, and `root` itself is untouched. A step past the last child, or a
/// path that ends on a node, changes nothing; a token met before the path
/// ends is the one replaced.
pub fn replace_token(root: &Rc<GreenNode>, path: &[usize], text: &[u8]) -> (r: Rc<GreenNode>)
    requires
        faithful(**root),
        node_text(**root).len() + text@.len() <= u32::MAX,
    ensures
        r.kind == root.kind,
        faithful(*r),
        node_counts(*r) == node_counts(**root),
        ({
            let t = node_text(**root);
            match edit_target(root.children@, path@) {
                Some((a, b)) => node_text(*r) == t.take(a) + text@ + t.skip(b),
                None => node_text(*r) == t,
            }
        }),
    decreases path@.len(),
{
    if path.len() == 0 {
        return Rc::clone(root);
    }
    let node: &GreenNode = root;
    let ghost s = node.children@;
    proof {
        lemma_node(node);
    }
    let idx = path[0];
    let rest = &path[1..path.len()];
    proof {
        assert(rest@ =~= path@.drop_first());
    }
    let mut children: Vec<GreenChild> = Vec::new();
    let ghost mut c2: GreenChild = if idx < s.len() { s[idx as int] } else { s[0] };
    let mut i: usize = 0;
    while i < node.children.len()
        invariant
            s == node.children@,
            all_faithful(s),
            node_text(*node) == seq_text(s),
            seq_text(s).len() + text@.len() <= u32::MAX,
            rest@ == path@.drop_first(),
            path@.len() >= 1,
            idx == path@[0],
            i <= s.len(),
            children@.len() == i,
            forall|k: int| 0 <= k < i && k != idx ==> children@[k] == s[k],
            idx < i ==> children@[idx as int] == c2,
            idx < s.len() ==> faithful_child(c2) && child_counts(c2) == child_counts(s[idx as int]) && match s[idx as int] {
                GreenChild::Token(_) => idx < i ==> child_text(c2) == text@,
                GreenChild::Node(m) => idx < i ==> ({
                    let t = seq_text(m.children@);
                    match edit_target(m.children@, rest@) {
                        Some((a, b)) => child_text(c2) == t.take(a) + text@ + t.skip(b),
                        None => child_text(c2) == t,
                    }
                }),
            },
        decreases s.len() - i,
    {
        proof {
            lemma_seq_split(s, i as int);
            assert(faithful_child(s[i as int]));
        }
        match &node.children[i] {
            GreenChild::Node(n) => {
                if i != idx {
                    children.push(GreenChild::Node(Rc::clone(n)));
                } else {
                    proof {
                        lemma_node(&**n);
                    }
                    let rebuilt = replace_token(n, rest, text);
                    proof {
                        lemma_node(&**n);
                        c2 = GreenChild::Node(rebuilt);
                    }
                    children.push(GreenChild::Node(rebuilt));
                }
            },
            GreenChild::Token(tok) => {
                if i != idx {
                    children.push(GreenChild::Token(Rc::clone(tok)));
                } else {
                    let rep = Rc::new(GreenToken { kind: tok.kind, text: vstd::slice::slice_to_vec(text) });
                    proof {
                        c2 = GreenChild::Token(rep);
                    }
                    children.push(GreenChild::Token(rep));
                }
            },
        }
        i = i + 1;
    }
    let ghost s2 = if idx < s.len() { s.update(idx as int, c2) } else { s };
    proof {
        assert(children@ =~= s2);
        if idx < s.len() {
            lemma_edited(s, path@, c2, text@);
            assert forall|k: int| 0 <= k < s2.len() implies #[trigger] faithful_child(s2[k]) by {
                if k != idx {
                    assert(s2[k] == s[k]);
                }
            }
            match edit_target(s, path@) {
                Some((a, b)) => {
                    lemma_edit_bounds(s, path@);
                },
                None => {},
            }
        }
    }
    let rebuilt = make_node(node.kind, children);
    Rc::new(rebuilt)
}

// --- the red layer --------------------------------------------------------------------

/// A green node placed in its document: its parent and absolute offset, made
/// on demand, since the green tree knows neither.
#[derive(Debug)]
pub struct Red {
    /// The node.
    pub green: Rc<GreenNode>,
    /// The red node of its parent, if it has one.
    pub parent: Option<Rc<Red>>,
    /// Where the node's text starts in the document.
    pub offset: u32,
}

/// The node children of `s` with the offsets they start at, counted from
/// `base` by the lengths the children report.
pub open spec fn node_kids(s: Seq<GreenChild>, base: int) -> Seq<(Rc<GreenNode>, int)>
    decreases s.len(),
{
    if s.len() == 0 {
        Seq::empty()
    } else {
        let rest = node_kids(s.drop_last(), base);
        match s.last() {
            GreenChild::Node(n) => rest.push((n, base + reported_sum(s.drop_last()))),
            GreenChild::Token(_) => rest,
        }
    }
}

impl Red {
    /// The red root of a green tree: no parent, offset zero.
    pub fn root(green: Rc<GreenNode>) -> (r: Rc<Red>)
        ensures
            r.green == green,
            r.parent is None,
            r.offset == 0,
    {
        Rc::new(Red { green, parent: None, offset: 0 })
    }

    /// The absolute range of this node in the source.
    pub fn range(&self) -> (r: (u32, u32))
        requires
            self.offset + self.green.text_len <= u32::MAX,
        ensures
            r == (self.offset, (self.offset + self.green.text_len) as u32),
    {
        (self.offset, self.offset + self.green.text_len)
    }

    /// The red nodes of this node's node children, each with its parent and
    /// the absolute offset the lengths before it add up to.
    pub fn children(self: &Rc<Self>) -> (r: Vec<Rc<Red>>)
        requires
            self.offset + reported_sum(self.green.children@) <= u32::MAX,
        ensures
            r@.len() == node_kids(self.green.children@, self.offset as int).len(),
            forall|k: int| 0 <= k < r@.len() ==> (#[trigger] r@[k]).green == node_kids(self.green.children@, self.offset as int)[k].0
                && r@[k].offset == node_kids(self.green.children@, self.offset as int)[k].1
                && r@[k].parent == Some(*self),
    {
        let ghost s = self.green.children@;
        let ghost base = self.offset as int;
        let mut out: Vec<Rc<Red>> = Vec::new();
        let mut at: u32 = self.offset;
        let mut i: usize = 0;
        proof {
            assert(s.take(0) =~= Seq::<GreenChild>::empty());
        }
        while i < self.green.children.len()
            invariant
                s == self.green.children@,
                base == self.offset,
                i <= s.len(),
                base + reported_sum(s) <= u32::MAX,
                at == base + reported_sum(s.take(i as int)),
                out@.len() == node_kids(s.take(i as int), base).len(),
                forall|k: int| 0 <= k < out@.len() ==> (#[trigger] out@[k]).green == node_kids(s.take(i as int), base)[k].0
                    && out@[k].offset == node_kids(s.take(i as int), base)[k].1
                    && out@[k].parent == Some(*self),
            decreases s.len() - i,
        {
            let ghost t = s.take(i + 1);
            proof {
                assert(t.drop_last() =~= s.take(i as int));
                assert(t.last() == s[i as int]);
                lemma_reported_prefix(s, i + 1);
            }
            let ghost before = out@;
            match &self.green.children[i] {
                GreenChild::Node(node) => {
                    out.push(Rc::new(Red { green: Rc::clone(node), parent: Some(Rc::clone(self)), offset: at }));
                    proof {
                        assert forall|k: int| 0 <= k < out@.len() implies (#[trigger] out@[k]).green == node_kids(t, base)[k].0
                            && out@[k].offset == node_kids(t, base)[k].1 && out@[k].parent == Some(*self) by {
                            if k < before.len() {
                                assert(out@[k] == before[k]);
                            }
                        }
                    }
                    at = at + node.text_len;
                },
                GreenChild::Token(tok) => {
                    at = at + tok.text.len() as u32;
                },
            }
            i = i + 1;
        }
        proof {
            assert(s.take(i as int) =~= s);
        }
        out
    }
}

proof fn lemma_reported_prefix(s: Seq<GreenChild>, k: int)
    requires
        0 <= k <= s.len(),
    ensures
        reported_sum(s.take(k)) <= reported_sum(s),
    decreases s.len(),
{
    if k < s.len() {
        assert(s.drop_last().take(k) =~= s.take(k));
        lemma_reported_prefix(s.drop_last(), k);
    } else {
        assert(s.take(k) =~= s);
    }
}

// --- locating a token -------------------------------------------------------------------

/// The source range, from `base`, that a non-empty `path` leads to among
/// children `s`, by the lengths they report: the last child named; the end
/// of the children when the last index runs past them; an empty range where
/// a step names a token or runs past the children.
pub open spec fn locate_seq(s: Seq<GreenChild>, path: Seq<usize>, base: int) -> (int, int)
    decreases path.len(),
{
    if path.len() <= 1 {
        if path.len() == 1 && path[0] < s.len() {
            let at = base + reported_sum(s.take(path[0] as int));
            (at, at + reported_len(s[path[0] as int]))
        } else {
            (base + reported_sum(s), base + reported_sum(s))
        }
    } else if path[0] < s.len() {
        match s[path[0] as int] {
            GreenChild::Node(m) => locate_seq(m.children@, path.drop_first(), base + reported_sum(s.take(path[0] as int))),
            GreenChild::Token(_) => (base, base),
        }
    } else {
        (base, base)
    }
}

/// The step of a walk down: the red node of child `idx` of `red`, when that
/// child is a node.
fn step_down(red: &Rc<Red>, idx: usize) -> (r: Option<Rc<Red>>)
    requires
        faithful(*red.green),
        red.offset + red.green.text_len <= u32::MAX,
    ensures
        ({
            let s = red.green.children@;
            if idx < s.len() && s[idx as int] is Node {
                r matches Some(c) && c.green == s[idx as int]->Node_0 && c.offset == red.offset + reported_sum(s.take(idx as int))
                    && c.parent == Some(*red)
            } else {
                r is None
            }
        }),
{
    let ghost s = red.green.children@;
    let g: &GreenNode = &red.green;
    proof {
        lemma_node(g);
        lemma_reported_sum(s);
    }
    let mut at: u32 = red.offset;
    let mut i: usize = 0;
    proof {
        assert(s.take(0) =~= Seq::<GreenChild>::empty());
    }
    while i < g.children.len()
        invariant
            s == g.children@,
            g == &*red.green,
            i <= s.len(),
            red.offset + reported_sum(s) <= u32::MAX,
            at == red.offset + reported_sum(s.take(i as int)),
            forall|j: int| 0 <= j < i ==> !(j == idx && s[j] is Node),
        decreases s.len() - i,
    {
        proof {
            assert(s.take(i + 1).drop_last() =~= s.take(i as int));
            assert(s.take(i + 1).last() == s[i as int]);
            lemma_reported_prefix(s, i + 1);
        }
        match &g.children[i] {
            GreenChild::Node(node) => {
                if i == idx {
                    return Some(Rc::new(Red { green: Rc::clone(node), parent: Some(Rc::clone(red)), offset: at }));
                }
                at = at + node.text_len;
            },
            GreenChild::Token(tok) => {
                at = at + tok.text.len() as u32;
            },
        }
        i = i + 1;
    }
    None
}

/// The absolute source range of what `path` leads to, found through the red
/// layer: a red node is made for each step down, since the green tree keeps
/// no offsets.
pub fn locate(root: &Rc<GreenNode>, path: &[usize]) -> (r: (u32, u32))
    requires
        faithful(**root),
    ensures
        path@.len() == 0 ==> r == (0u32, root.text_len),
        path@.len() > 0 ==> (r.0 as int, r.1 as int) == locate_seq(root.children@, path@, 0),
{
    if path.len() == 0 {
        return (0, root.text_len);
    }
    let last_at = path.len() - 1;
    let mut red = Red::root(Rc::clone(root));
    let mut k: usize = 0;
    proof {
        assert(path@.skip(0) =~= path@);
        lemma_node(&**root);
        lemma_reported_sum(root.children@);
    }
    while k < last_at
        invariant
            path@.len() > 0,
            last_at == path@.len() - 1,
            k <= last_at,
            faithful(*red.green),
            red.offset + red.green.text_len <= u32::MAX,
            locate_seq(root.children@, path@, 0) == locate_seq(red.green.children@, path@.skip(k as int), red.offset as int),
        decreases last_at - k,
    {
        let idx = path[k];
        proof {
            let q = path@.skip(k as int);
            assert(q[0] == idx);
            assert(q.drop_first() =~= path@.skip(k + 1));
            lemma_node(&*red.green);
            lemma_reported_sum(red.green.children@);
            if idx < red.green.children@.len() {
                let cs = red.green.children@;
                lemma_reported_prefix(cs, idx + 1);
                assert(cs.take(idx + 1).drop_last() =~= cs.take(idx as int));
                assert(cs.take(idx + 1).last() == cs[idx as int]);
                assert(faithful_child(cs[idx as int]));
                match cs[idx as int] {
                    GreenChild::Node(m) => {
                        lemma_node(&*m);
                    },
                    GreenChild::Token(_) => {},
                }
            }
        }
        match step_down(&red, idx) {
            Some(child) => {
                red = child;
            },
            None => {
                return (red.offset, red.offset);
            },
        }
        k = k + 1;
    }
    let last = path[last_at];
    let ghost s = red.green.children@;
    let g: &GreenNode = &red.green;
    proof {
        let q = path@.skip(k as int);
        assert(q.len() == 1);
        assert(q[0] == last);
        lemma_node(g);
        lemma_reported_sum(s);
    }
    let mut at: u32 = red.offset;
    let mut i: usize = 0;
    proof {
        assert(s.take(0) =~= Seq::<GreenChild>::empty());
    }
    while i < g.children.len()
        invariant
            path@.len() > 0,
            s == g.children@,
            i <= s.len(),
            red.offset + reported_sum(s) <= u32::MAX,
            at == red.offset + reported_sum(s.take(i as int)),
            i <= last || last >= s.len(),
            locate_seq(root.children@, path@, 0) == locate_seq(s, seq![last], red.offset as int),
        decreases s.len() - i,
    {
        proof {
            assert(s.take(i + 1).drop_last() =~= s.take(i as int));
            assert(s.take(i + 1).last() == s[i as int]);
            lemma_reported_prefix(s, i + 1);
        }
        let len: u32 = match &g.children[i] {
            GreenChild::Node(node) => node.text_len,
            GreenChild::Token(tok) => tok.text.len() as u32,
        };
        if i == last {
            return (at, at + len);
        }
        at = at + len;
        i = i + 1;
    }
    proof {
        assert(s.take(i as int) =~= s);
    }
    (at, at)
}


// --- the edit check ---------------------------------------------------------------------

proof fn lemma_child_flat(c: GreenChild)
    ensures
        child_text(c) == flat(child_tokens(c)),
        child_counts(c).1 == child_tokens(c).len(),
    decreases c, 0nat,
{
    match c {
        GreenChild::Token(t) => {
            let one = seq![t.text@];
            assert(one.drop_last() =~= Seq::<Seq<u8>>::empty());
            assert(one.last() == t.text@);
            assert(flat(one) == flat(one.drop_last()) + one.last());
            assert(flat(Seq::<Seq<u8>>::empty()) == Seq::<u8>::empty());
            assert(Seq::<u8>::empty() + t.text@ =~= t.text@);
            assert(child_tokens(c) == one);
        },
        GreenChild::Node(n) => {
            lemma_upto_flat(&*n, n.children@.len());
        },
    }
}

proof fn lemma_upto_flat(n: &GreenNode, k: nat)
    ensures
        text_upto(*n, k) == flat(tokens_upto(*n, k)),
        counts_upto(*n, k).1 == tokens_upto(*n, k).len(),
    decreases *n, k,
{
    if k > 0 && k <= n.children@.len() {
        lemma_upto_flat(n, (k - 1) as nat);
        lemma_child_flat(n.children@[k - 1]);
        lemma_flat_append(tokens_upto(*n, (k - 1) as nat), child_tokens(n.children@[k - 1]));
    }
}

/// Children read as their tokens' texts, one after another.
proof fn lemma_seq_flat(s: Seq<GreenChild>)
    ensures
        seq_text(s) == flat(seq_tokens(s)),
        seq_counts(s).1 == seq_tokens(s).len(),
    decreases s.len(),
{
    if s.len() > 0 {
        lemma_seq_flat(s.drop_last());
        lemma_child_flat(s.last());
        lemma_flat_append(seq_tokens(s.drop_last()), child_tokens(s.last()));
    }
}

/// The range an edit along `path` replaces is the range of the token it
/// names, counted in the texts of the tokens before it.
proof fn lemma_target_tokens(s: Seq<GreenChild>, path: Seq<usize>, k: nat)
    requires
        token_index_in(s, path) == Some(k),
    ensures
        k < seq_tokens(s).len(),
        edit_target(s, path) == Some((flat(seq_tokens(s).take(k as int)).len() as int, (flat(seq_tokens(s).take(k as int)).len()
            + seq_tokens(s)[k as int].len()) as int)),
    decreases path.len(),
{
    let i = path[0] as int;
    let front = s.take(i);
    let a = seq_tokens(front);
    let c = child_tokens(s[i]);
    let b = seq_tokens(s.skip(i + 1));
    assert(s =~= front + seq![s[i]] + s.skip(i + 1));
    lemma_seq_append(front + seq![s[i]], s.skip(i + 1));
    lemma_seq_append(front, seq![s[i]]);
    lemma_seq_single(s[i]);
    assert(seq_tokens(s) == a + c + b);
    lemma_seq_flat(front);
    match s[i] {
        GreenChild::Token(t) => {
            assert(c == seq![t.text@]);
            assert((a + c + b).take(a.len() as int) =~= a);
            assert((a + c + b)[a.len() as int] == t.text@);
        },
        GreenChild::Node(m) => {
            let inner = path.drop_first();
            let kk = (k - a.len()) as nat;
            assert(token_index_in(m.children@, inner) == Some(kk));
            lemma_node(&*m);
            lemma_target_tokens(m.children@, inner, kk);
            assert(c == seq_tokens(m.children@));
            assert((a + c + b).take(k as int) =~= a + c.take(kk as int));
            lemma_flat_append(a, c.take(kk as int));
            assert((a + c + b)[k as int] == c[kk as int]);
        },
    }
}

/// Over faithful children, the lengths the children report lead a walk to
/// the range an edit along the same path replaces.
proof fn lemma_locate_target(s: Seq<GreenChild>, path: Seq<usize>, base: int)
    requires
        all_faithful(s),
        token_index_in(s, path) is Some,
    ensures
        edit_target(s, path) matches Some((a, b)) && locate_seq(s, path, base) == (base + a, base + b),
    decreases path.len(),
{
    let i = path[0] as int;
    let front = s.take(i);
    assert(all_faithful(front)) by {
        assert forall|j: int| 0 <= j < front.len() implies #[trigger] faithful_child(front[j]) by {
            assert(front[j] == s[j]);
        }
    }
    lemma_reported_sum(front);
    assert(faithful_child(s[i]));
    match s[i] {
        GreenChild::Token(t) => {
            assert(path.len() == 1);
        },
        GreenChild::Node(m) => {
            let inner = path.drop_first();
            assert(token_index_in(m.children@, inner) is Some);
            assert(inner.len() > 0);
            lemma_node(&*m);
            assert(faithful(*m));
            lemma_locate_target(m.children@, inner, base + reported_sum(front));
        },
    }
}

/// The edit check on the green tree. In a tree built from a lexed input, a
/// path that names the `n`-th token in document order leads, both as
/// [`replace_token`] follows it and as [`locate`] does through the red
/// layer, to the lexer's `n`-th token's range of the input; so the edit
/// splices the new text over exactly that range.
pub proof fn lemma_edit_check(root: GreenNode, s: Seq<u8>, ts: Seq<Tok>, ls: Seq<LineSpan>, path: Seq<usize>, n: nat)
    requires
        lexes(s, ts, ls),
        faithful(root),
        node_tokens(root) == tok_texts(s, lines_toks(ts, ls, 0, ls.len() as int)),
        token_index(root, path) == Some(n),
    ensures
        n < ts.len(),
        edit_target(root.children@, path) == Some((ts[n as int].start as int, tok_end(ts[n as int]))),
        locate_seq(root.children@, path, 0) == (ts[n as int].start as int, tok_end(ts[n as int])),
{
    lemma_lex_is_lossless(s, ts, ls);
    if ls.len() == 0 {
        assert(ts.len() == 0);
        assert(lines_toks(ts, ls, 0, 0) =~= ts);
    } else {
        super::arena::lemma_lines_toks_range(ts, ls, 0);
        assert(ts.subrange(0, ts.len() as int) =~= ts);
    }
    let tt = tok_texts(s, ts);
    lemma_node(&root);
    lemma_target_tokens(root.children@, path, n);
    lemma_locate_target(root.children@, path, 0);
    assert(tt.take(n as int) =~= tok_texts(s, ts.take(n as int)));
    lemma_flat_tok_texts(s, ts.take(n as int));
    super::arena::lemma_tiles_splice(s, ts, n as int);
    assert(tok_end(ts[n as int]) <= s.len());
    assert(tt[n as int] == tok_bytes(s, ts[n as int]));
}

} // verus!
