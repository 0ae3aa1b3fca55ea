//! The owned token tree: every node owns a `Vec` of children and every token
//! owns its bytes. No refcounting, no interning, no arena, no index
//! indirection: navigation is a plain walk and an edit is a plain in-place
//! write, so keeping a pre-edit version means copying the whole tree.
use super::lex::{
    fits, is_plan, lemma_lex_is_lossless, line_text, lines_text, lemma_lines_cover, lexes, tok_bytes, tok_end, toks_text, Kind,
    Lexed, LineSpan, Tok,
};
use super::arena::lines_toks;
use vstd::prelude::*;

verus! {

/// A leaf: a kind and its own copy of its bytes.
#[derive(Debug)]
pub struct Token {
    /// What it is.
    pub kind: Kind,
    /// Its bytes.
    pub text: Vec<u8>,
}

/// A node's child.
#[derive(Debug)]
pub enum Child {
    /// A nested node.
    Node(Node),
    /// A leaf.
    Token(Token),
}

/// An interior node.
#[derive(Debug)]
pub struct Node {
    /// What it is.
    pub kind: Kind,
    /// Its children, in document order.
    pub children: Vec<Child>,
}

/// A whole tree.
#[derive(Debug)]
pub struct Tree {
    /// The document node.
    pub root: Node,
}

// --- what a tree holds ----------------------------------------------------------

/// The bytes under a child, in document order.
pub open spec fn child_text(c: Child) -> Seq<u8>
    decreases c, 0nat,
{
    match c {
        Child::Token(t) => t.text@,
        Child::Node(n) => text_upto(n, n.children@.len()),
    }
}

/// The bytes under a node's first `k` children.
pub open spec fn text_upto(n: Node, k: nat) -> Seq<u8>
    decreases n, k,
{
    if k == 0 || k > n.children@.len() {
        Seq::empty()
    } else {
        text_upto(n, (k - 1) as nat) + child_text(n.children@[k - 1])
    }
}

/// The bytes under a node.
pub open spec fn node_text(n: Node) -> Seq<u8> {
    text_upto(n, n.children@.len())
}

/// Nodes and tokens under a child, itself included: `(nodes, tokens)`.
pub open spec fn child_counts(c: Child) -> (nat, nat)
    decreases c, 0nat,
{
    match c {
        Child::Token(_) => (0, 1),
        Child::Node(n) => {
            let (a, b) = counts_upto(n, n.children@.len());
            (a + 1, b)
        },
    }
}

/// Nodes and tokens under a node's first `k` children.
pub open spec fn counts_upto(n: Node, k: nat) -> (nat, nat)
    decreases n, k,
{
    if k == 0 || k > n.children@.len() {
        (0, 0)
    } else {
        let (a, b) = counts_upto(n, (k - 1) as nat);
        let (c, d) = child_counts(n.children@[k - 1]);
        (a + c, b + d)
    }
}

/// Nodes (itself included) and tokens in a node's subtree.
pub open spec fn node_counts(n: Node) -> (nat, nat) {
    let (a, b) = counts_upto(n, n.children@.len());
    (a + 1, b)
}

/// The texts of the tokens under a child, in document order.
pub open spec fn child_tokens(c: Child) -> Seq<Seq<u8>>
    decreases c, 0nat,
{
    match c {
        Child::Token(t) => seq![t.text@],
        Child::Node(n) => tokens_upto(n, n.children@.len()),
    }
}

/// The texts of the tokens under a node's first `k` children.
pub open spec fn tokens_upto(n: Node, k: nat) -> Seq<Seq<u8>>
    decreases n, k,
{
    if k == 0 || k > n.children@.len() {
        Seq::empty()
    } else {
        tokens_upto(n, (k - 1) as nat) + child_tokens(n.children@[k - 1])
    }
}

/// The texts of the tokens under a node, in document order.
pub open spec fn node_tokens(n: Node) -> Seq<Seq<u8>> {
    tokens_upto(n, n.children@.len())
}

/// The texts of the tokens under a sequence of children.
pub open spec fn seq_tokens(s: Seq<Child>) -> Seq<Seq<u8>>
    decreases s.len(),
{
    if s.len() == 0 { Seq::empty() } else { seq_tokens(s.drop_last()) + child_tokens(s.last()) }
}

/// Texts, one after another.
pub open spec fn flat(ts: Seq<Seq<u8>>) -> Seq<u8>
    decreases ts.len(),
{
    if ts.len() == 0 { Seq::empty() } else { flat(ts.drop_last()) + ts.last() }
}

/// The bytes each token reads, in order.
pub open spec fn tok_texts(s: Seq<u8>, ts: Seq<Tok>) -> Seq<Seq<u8>> {
    Seq::new(ts.len(), |k: int| tok_bytes(s, ts[k]))
}

/// The bytes under a sequence of children.
pub open spec fn seq_text(s: Seq<Child>) -> Seq<u8>
    decreases s.len(),
{
    if s.len() == 0 { Seq::empty() } else { seq_text(s.drop_last()) + child_text(s.last()) }
}

/// Nodes and tokens under a sequence of children.
pub open spec fn seq_counts(s: Seq<Child>) -> (nat, nat)
    decreases s.len(),
{
    if s.len() == 0 {
        (0, 0)
    } else {
        let (a, b) = seq_counts(s.drop_last());
        let (c, d) = child_counts(s.last());
        (a + c, b + d)
    }
}

proof fn lemma_upto(n: Node, k: nat)
    requires
        k <= n.children@.len(),
    ensures
        text_upto(n, k) == seq_text(n.children@.take(k as int)),
        counts_upto(n, k) == seq_counts(n.children@.take(k as int)),
        tokens_upto(n, k) == seq_tokens(n.children@.take(k as int)),
    decreases k,
{
    if k > 0 {
        lemma_upto(n, (k - 1) as nat);
        assert(n.children@.take(k as int).drop_last() =~= n.children@.take(k - 1));
    } else {
        assert(n.children@.take(0).len() == 0);
    }
}

/// A node's text and counts are those of its children.
pub proof fn lemma_node(n: Node)
    ensures
        node_text(n) == seq_text(n.children@),
        node_counts(n) == (seq_counts(n.children@).0 + 1, seq_counts(n.children@).1),
        node_tokens(n) == seq_tokens(n.children@),
{
    lemma_upto(n, n.children@.len());
    assert(n.children@.take(n.children@.len() as int) =~= n.children@);
}

proof fn lemma_seq_append(a: Seq<Child>, b: Seq<Child>)
    ensures
        seq_text(a + b) == seq_text(a) + seq_text(b),
        seq_counts(a + b) == (seq_counts(a).0 + seq_counts(b).0, seq_counts(a).1 + seq_counts(b).1),
        seq_tokens(a + b) == seq_tokens(a) + seq_tokens(b),
    decreases b.len(),
{
    if b.len() == 0 {
        assert(a + b =~= a);
    } else {
        assert((a + b).drop_last() =~= a + b.drop_last());
        lemma_seq_append(a, b.drop_last());
    }
}

proof fn lemma_seq_single(c: Child)
    ensures
        seq_text(seq![c]) == child_text(c),
        seq_counts(seq![c]) == child_counts(c),
        seq_tokens(seq![c]) == child_tokens(c),
{
    let s = seq![c];
    assert(s.drop_last() =~= Seq::<Child>::empty());
    assert(s.last() == c);
    assert(seq_text(Seq::<Child>::empty()) == Seq::<u8>::empty());
    assert(seq_counts(Seq::<Child>::empty()) == (0nat, 0nat));
    assert(Seq::<u8>::empty() + child_text(c) =~= child_text(c));
    assert(seq_tokens(Seq::<Child>::empty()) == Seq::<Seq<u8>>::empty());
    assert(Seq::<Seq<u8>>::empty() + child_tokens(c) =~= child_tokens(c));
}

// --- building -------------------------------------------------------------------

/// The text of a stack of finished lines, top (last) first.
pub open spec fn pending_text(p: Seq<(u32, Node)>) -> Seq<u8>
    decreases p.len(),
{
    if p.len() == 0 { Seq::empty() } else { node_text(p.last().1) + pending_text(p.drop_last()) }
}

/// The token texts of a stack of finished lines, top (last) first.
pub open spec fn pending_tokens(p: Seq<(u32, Node)>) -> Seq<Seq<u8>>
    decreases p.len(),
{
    if p.len() == 0 { Seq::empty() } else { node_tokens(p.last().1) + pending_tokens(p.drop_last()) }
}

/// Nodes and tokens of a stack of finished lines.
pub open spec fn pending_counts(p: Seq<(u32, Node)>) -> (nat, nat)
    decreases p.len(),
{
    if p.len() == 0 {
        (0, 0)
    } else {
        let (a, b) = pending_counts(p.drop_last());
        let (c, d) = node_counts(p.last().1);
        (a + c, b + d)
    }
}

/// Token counts of lines `a..b`.
pub open spec fn lines_tokens(ls: Seq<LineSpan>, a: int, b: int) -> nat
    decreases b - a,
{
    if a >= b { 0 } else { (ls[a].end - ls[a].first) as nat + lines_tokens(ls, a + 1, b) }
}

/// The token children of a line.
fn line_tokens(src: &[u8], toks: &Vec<Tok>, first: usize, end: usize) -> (r: Vec<Child>)
    requires
        first <= end <= toks@.len(),
        forall|k: int| 0 <= k < toks@.len() ==> tok_end(#[trigger] toks@[k]) <= src@.len(),
    ensures
        seq_text(r@) == toks_text(src@, toks@.subrange(first as int, end as int)),
        seq_counts(r@) == (0nat, (end - first) as nat),
        seq_tokens(r@) == tok_texts(src@, toks@.subrange(first as int, end as int)),
{
    let mut out: Vec<Child> = Vec::new();
    let mut k = first;
    let n = src.len();
    proof {
        assert(toks@.subrange(first as int, first as int) =~= Seq::<Tok>::empty());
    }
    while k < end
        invariant
            n == src@.len(),
            first <= k <= end <= toks@.len(),
            forall|m: int| 0 <= m < toks@.len() ==> tok_end(#[trigger] toks@[m]) <= src@.len(),
            seq_text(out@) == toks_text(src@, toks@.subrange(first as int, k as int)),
            seq_counts(out@) == (0nat, (k - first) as nat),
            seq_tokens(out@) == tok_texts(src@, toks@.subrange(first as int, k as int)),
        decreases end - k,
    {
        let t = toks[k];
        proof {
            assert(tok_end(toks@[k as int]) <= src@.len());
        }
        let bytes = &src[t.start as usize..(t.start as usize + t.len as usize)];
        let c = Child::Token(Token { kind: t.kind, text: vstd::slice::slice_to_vec(bytes) });
        let ghost before = out@;
        out.push(c);
        proof {
            assert(out@.drop_last() == before);
            assert(toks@.subrange(first as int, k + 1).drop_last() =~= toks@.subrange(first as int, k as int));
            assert(bytes@ == tok_bytes(src@, t));
            assert(tok_texts(src@, toks@.subrange(first as int, k + 1)) =~= tok_texts(src@, toks@.subrange(first as int, k as int)).push(
                tok_bytes(src@, t)));
            assert(seq_tokens(out@) == seq_tokens(before) + child_tokens(c));
            assert(child_tokens(c) == seq![bytes@]);
            assert(seq_tokens(out@) =~= tok_texts(src@, toks@.subrange(first as int, k + 1)));
        }
        k = k + 1;
    }
    out
}

/// Build line `j`'s node: its tokens, then the finished lines that sit on
/// top of `pending` with `j` as their parent.
fn build_line(src: &[u8], lexed: &Lexed, parents: &[u32], j: usize, pending: &mut Vec<(u32, Node)>)
    requires
        j < lexed.lines@.len(),
        j < parents@.len(),
        fits(src@, lexed.toks@, lexed.lines@),
    ensures
        pending_text(final(pending)@) == line_text(src@, lexed.toks@, lexed.lines@[j as int]) + pending_text(old(pending)@),
        pending_counts(final(pending)@) == (pending_counts(old(pending)@).0 + 1,
            pending_counts(old(pending)@).1 + (lexed.lines@[j as int].end - lexed.lines@[j as int].first) as nat),
        pending_tokens(final(pending)@) == tok_texts(src@, lexed.toks@.subrange(lexed.lines@[j as int].first as int,
            lexed.lines@[j as int].end as int)) + pending_tokens(old(pending)@),
{
    let line = lexed.lines[j];
    let ghost own = line_text(src@, lexed.toks@, line);
    let ghost p0 = pending@;
    let mut children = line_tokens(src, &lexed.toks, line.first as usize, line.end as usize);
    let ghost own_tokens = (line.end - line.first) as nat;
    let ghost own_texts = tok_texts(src@, lexed.toks@.subrange(line.first as int, line.end as int));
    while pending.len() > 0 && pending[pending.len() - 1].0 as usize == j
        invariant
            seq_text(children@) + pending_text(pending@) == own + pending_text(p0),
            seq_counts(children@).0 + pending_counts(pending@).0 == pending_counts(p0).0,
            seq_counts(children@).1 + pending_counts(pending@).1 == own_tokens + pending_counts(p0).1,
            seq_tokens(children@) + pending_tokens(pending@) == own_texts + pending_tokens(p0),
        decreases pending@.len(),
    {
        let ghost before = pending@;
        let ghost kids = children@;
        let (_, node) = pending.pop().unwrap();
        proof {
            assert(pending@ == before.drop_last());
            assert(node == before.last().1);
            lemma_seq_append(kids, seq![Child::Node(node)]);
            lemma_seq_single(Child::Node(node));
            lemma_node(node);
            assert(child_text(Child::Node(node)) == node_text(node));
            vstd::seq_lib::lemma_concat_associative(seq_text(kids), node_text(node), pending_text(pending@));
            assert(child_tokens(Child::Node(node)) == node_tokens(node));
            assert(pending_tokens(before) == node_tokens(node) + pending_tokens(pending@));
            vstd::seq_lib::lemma_concat_associative(seq_tokens(kids), node_tokens(node), pending_tokens(pending@));
        }
        children.push(Child::Node(node));
        proof {
            assert(children@ == kids + seq![Child::Node(node)]);
        }
    }
    let node = Node { kind: Kind::Line, children };
    let parent = parents[j];
    proof {
        lemma_node(node);
        let e = (parent, node);
        assert(pending@.push(e).drop_last() == pending@);
        vstd::seq_lib::lemma_concat_associative(seq_text(node.children@), pending_text(pending@), Seq::<u8>::empty());
        assert(pending@.push(e).last() == e);
        assert(pending_tokens(pending@.push(e)) == node_tokens(node) + pending_tokens(pending@));
    }
    pending.push((parent, node));
}

/// Build the owned tree for a lexed input: one `Line` node per line, holding
/// its tokens and then the lines nested under it; the `Document` root holds
/// the lines nested under nothing. `parents` is the nesting plan
/// [`super::lex::nesting`] computes for the lines. The tree's text is the
/// lines' text in order, so for a lexed input it is the input itself.
pub fn build(src: &[u8], lexed: &Lexed, parents: &[u32]) -> (tree: Tree)
    requires
        fits(src@, lexed.toks@, lexed.lines@),
        is_plan(lexed.lines@, parents@),
    ensures
        tree.root.kind == Kind::Document,
        node_text(tree.root) == lines_text(src@, lexed.toks@, lexed.lines@, 0, lexed.lines@.len() as int),
        node_counts(tree.root) == (lexed.lines@.len() + 1, lines_tokens(lexed.lines@, 0, lexed.lines@.len() as int)),
        lexes(src@, lexed.toks@, lexed.lines@) ==> node_text(tree.root) == src@,
        node_tokens(tree.root) == tok_texts(src@, lines_toks(lexed.toks@, lexed.lines@, 0, lexed.lines@.len() as int)),
{
    let n = lexed.lines.len();
    let mut pending: Vec<(u32, Node)> = Vec::new();
    let mut j = n;
    while j > 0
        invariant
            j <= n == lexed.lines@.len(),
            parents@.len() == n,
            fits(src@, lexed.toks@, lexed.lines@),
            pending_text(pending@) == lines_text(src@, lexed.toks@, lexed.lines@, j as int, n as int),
            pending_counts(pending@) == ((n - j) as nat, lines_tokens(lexed.lines@, j as int, n as int)),
            pending_tokens(pending@) == tok_texts(src@, lines_toks(lexed.toks@, lexed.lines@, j as int, n as int)),
        decreases j,
    {
        j = j - 1;
        build_line(src, lexed, parents, j, &mut pending);
        proof {
            let l = lexed.lines@[j as int];
            assert(lines_toks(lexed.toks@, lexed.lines@, j as int, n as int) == lexed.toks@.subrange(l.first as int, l.end as int)
                + lines_toks(lexed.toks@, lexed.lines@, j + 1, n as int));
            assert(tok_texts(src@, lines_toks(lexed.toks@, lexed.lines@, j as int, n as int)) =~= tok_texts(src@,
                lexed.toks@.subrange(l.first as int, l.end as int)) + tok_texts(src@, lines_toks(lexed.toks@, lexed.lines@, j + 1, n as int)));
        }
    }
    let mut doc: Vec<Child> = Vec::new();
    let ghost total = pending_text(pending@);
    let ghost total_counts = pending_counts(pending@);
    let ghost total_tokens = pending_tokens(pending@);
    proof {
        assert(pending_tokens(pending@) =~= Seq::<Seq<u8>>::empty() + pending_tokens(pending@));
    }
    while pending.len() > 0
        invariant
            seq_text(doc@) + pending_text(pending@) == total,
            seq_counts(doc@).0 + pending_counts(pending@).0 == total_counts.0,
            seq_counts(doc@).1 + pending_counts(pending@).1 == total_counts.1,
            seq_tokens(doc@) + pending_tokens(pending@) == total_tokens,
        decreases pending@.len(),
    {
        let ghost before = pending@;
        let ghost kids = doc@;
        let (_, node) = pending.pop().unwrap();
        proof {
            assert(pending@ == before.drop_last());
            assert(node == before.last().1);
            lemma_seq_append(kids, seq![Child::Node(node)]);
            lemma_seq_single(Child::Node(node));
            lemma_node(node);
            vstd::seq_lib::lemma_concat_associative(seq_text(kids), node_text(node), pending_text(pending@));
            assert(child_tokens(Child::Node(node)) == node_tokens(node));
            assert(pending_tokens(before) == node_tokens(node) + pending_tokens(pending@));
            vstd::seq_lib::lemma_concat_associative(seq_tokens(kids), node_tokens(node), pending_tokens(pending@));
        }
        doc.push(Child::Node(node));
        proof {
            assert(doc@ == kids + seq![Child::Node(node)]);
        }
    }
    let root = Node { kind: Kind::Document, children: doc };
    proof {
        lemma_node(root);
        assert(seq_text(root.children@) + Seq::<u8>::empty() =~= seq_text(root.children@));
        assert(seq_tokens(root.children@) + Seq::<Seq<u8>>::empty() =~= seq_tokens(root.children@));
        if lexes(src@, lexed.toks@, lexed.lines@) {
            lemma_lines_cover(src@, lexed.toks@, lexed.lines@);
        }
    }
    Tree { root }
}

// --- reading a tree back -----------------------------------------------------------

/// Text of a stack of children whose top is its last element: the top first.
pub open spec fn stack_text(s: Seq<&Child>) -> Seq<u8>
    decreases s.len(),
{
    if s.len() == 0 { Seq::empty() } else { child_text(*s.last()) + stack_text(s.drop_last()) }
}

/// Nodes and tokens of a stack of children.
pub open spec fn stack_size(s: Seq<&Child>) -> nat
    decreases s.len(),
{
    if s.len() == 0 { 0 } else { child_counts(*s.last()).0 + child_counts(*s.last()).1 + stack_size(s.drop_last()) }
}

/// Push `kids` onto `stack` in reverse, so that they pop in document order.
fn push_reversed<'a>(stack: &mut Vec<&'a Child>, kids: &'a Vec<Child>)
    ensures
        stack_text(final(stack)@) == seq_text(kids@) + stack_text(old(stack)@),
        stack_size(final(stack)@) == seq_counts(kids@).0 + seq_counts(kids@).1 + stack_size(old(stack)@),
{
    let mut i = kids.len();
    proof {
        assert(kids@.subrange(i as int, kids@.len() as int) =~= Seq::<Child>::empty());
    }
    while i > 0
        invariant
            i <= kids@.len(),
            stack_text(stack@) == seq_text(kids@.subrange(i as int, kids@.len() as int)) + stack_text(old(stack)@),
            stack_size(stack@) == seq_counts(kids@.subrange(i as int, kids@.len() as int)).0
                + seq_counts(kids@.subrange(i as int, kids@.len() as int)).1 + stack_size(old(stack)@),
        decreases i,
    {
        i = i - 1;
        let ghost before = stack@;
        stack.push(&kids[i]);
        proof {
            assert(stack@.drop_last() == before);
            let tail = kids@.subrange(i + 1, kids@.len() as int);
            assert(kids@.subrange(i as int, kids@.len() as int) =~= seq![kids@[i as int]] + tail);
            lemma_seq_append(seq![kids@[i as int]], tail);
            lemma_seq_single(kids@[i as int]);
            vstd::seq_lib::lemma_concat_associative(child_text(kids@[i as int]), seq_text(tail), stack_text(old(stack)@));
        }
    }
    proof {
        assert(kids@.subrange(0, kids@.len() as int) =~= kids@);
    }
}

/// The tree's bytes, in document order: an in-order walk over an explicit
/// stack, so depth costs heap rather than call stack.
pub fn serialize(tree: &Tree) -> (out: Vec<u8>)
    ensures
        out@ == node_text(tree.root),
{
    let mut out: Vec<u8> = Vec::new();
    let mut stack: Vec<&Child> = Vec::new();
    push_reversed(&mut stack, &tree.root.children);
    proof {
        lemma_node(tree.root);
        assert(seq_text(tree.root.children@) + Seq::<u8>::empty() =~= seq_text(tree.root.children@));
    }
    while stack.len() > 0
        invariant
            out@ + stack_text(stack@) == node_text(tree.root),
        decreases stack_size(stack@),
    {
        let ghost before = stack@;
        let child = stack.pop().unwrap();
        proof {
            assert(before.drop_last() == stack@);
        }
        match child {
            Child::Token(tok) => {
                let ghost o = out@;
                out.extend_from_slice(tok.text.as_slice());
                proof {
                    vstd::seq_lib::lemma_concat_associative(o, tok.text@, stack_text(stack@));
                }
            },
            Child::Node(node) => {
                proof {
                    lemma_node(*node);
                }
                push_reversed(&mut stack, &node.children);
            },
        }
    }
    proof {
        assert(out@ + Seq::<u8>::empty() =~= out@);
    }
    out
}

/// Nodes and tokens of a stack of nodes.
pub open spec fn node_stack_counts(s: Seq<&Node>) -> (nat, nat)
    decreases s.len(),
{
    if s.len() == 0 {
        (0, 0)
    } else {
        let (a, b) = node_stack_counts(s.drop_last());
        let (c, d) = node_counts(*s.last());
        (a + c, b + d)
    }
}

/// How many nodes, the root among them, and how many tokens the tree holds.
pub fn count_nodes(tree: &Tree) -> (r: (usize, usize))
    requires
        node_counts(tree.root).0 + node_counts(tree.root).1 <= usize::MAX,
    ensures
        r == (node_counts(tree.root).0 as usize, node_counts(tree.root).1 as usize),
{
    let ghost total = node_counts(tree.root);
    let mut nodes: usize = 0;
    let mut tokens: usize = 0;
    let mut stack: Vec<&Node> = Vec::new();
    stack.push(&tree.root);
    proof {
        assert(stack@.drop_last() =~= Seq::<&Node>::empty());
        assert(stack@.last() == &tree.root);
        assert(node_stack_counts(Seq::<&Node>::empty()) == (0nat, 0nat));
        assert(node_stack_counts(stack@) == node_counts(tree.root));
    }
    while stack.len() > 0
        invariant
            total.0 + total.1 <= usize::MAX,
            nodes + node_stack_counts(stack@).0 == total.0,
            tokens + node_stack_counts(stack@).1 == total.1,
        decreases node_stack_counts(stack@).0 + node_stack_counts(stack@).1,
    {
        let ghost before = stack@;
        let ghost n0 = nodes;
        let ghost t0 = tokens;
        let node = stack.pop().unwrap();
        proof {
            assert(before.drop_last() == stack@);
            lemma_node(*node);
        }
        nodes = nodes + 1;
        let mut i: usize = 0;
        proof {
            assert(node.children@.skip(0) =~= node.children@);
        }
        while i < node.children.len()
            invariant
                total.0 + total.1 <= usize::MAX,
                i <= node.children@.len(),
                nodes == n0 + 1,
                tokens >= t0,
                n0 + node_stack_counts(before).0 == total.0,
                t0 + node_stack_counts(before).1 == total.1,
                nodes + node_stack_counts(stack@).0 + seq_counts(node.children@.skip(i as int)).0 == total.0,
                tokens + node_stack_counts(stack@).1 + seq_counts(node.children@.skip(i as int)).1 == total.1,
            decreases node.children@.len() - i,
        {
            let c = &node.children[i];
            proof {
                let rest = node.children@.skip(i as int);
                assert(rest =~= seq![node.children@[i as int]] + node.children@.skip(i + 1));
                lemma_seq_append(seq![node.children@[i as int]], node.children@.skip(i + 1));
                lemma_seq_single(node.children@[i as int]);
            }
            match c {
                Child::Node(inner) => {
                    let ghost sb = stack@;
                    stack.push(inner);
                    proof {
                        assert(stack@.drop_last() == sb);
                        lemma_node(*inner);
                    }
                },
                Child::Token(_) => {
                    tokens = tokens + 1;
                },
            }
            i = i + 1;
        }
        proof {
            assert(node.children@.skip(i as int) =~= Seq::<Child>::empty());
        }
    }
    (nodes, tokens)
}

// --- finding and editing a token -------------------------------------------------------

/// Among children `s`, the document-order index of the token `path` leads
/// to (child indices, top down), or `None` when it leads to no token.
pub open spec fn token_index_in(s: Seq<Child>, path: Seq<usize>) -> Option<nat>
    decreases path.len(),
{
    if path.len() == 0 || path[0] >= s.len() {
        None
    } else {
        let i = path[0] as int;
        let before = seq_counts(s.take(i)).1;
        match s[i] {
            Child::Token(_) => if path.len() == 1 { Some(before) } else { None },
            Child::Node(m) => match token_index_in(m.children@, path.drop_first()) {
                Some(k) => Some(before + k),
                None => None,
            },
        }
    }
}

/// The document-order index of the token `path` leads to from `n`.
pub open spec fn token_index(n: Node, path: Seq<usize>) -> Option<nat> {
    token_index_in(n.children@, path)
}

/// Whether following `path` among children `s` stays in range at every step
/// it takes: each index names a child, and a token ends the walk.
pub open spec fn path_ok_in(s: Seq<Child>, path: Seq<usize>) -> bool
    decreases path.len(),
{
    path.len() == 0 || (path[0] < s.len() && (path.len() == 1 || match s[path[0] as int] {
        Child::Node(m) => path_ok_in(m.children@, path.drop_first()),
        Child::Token(_) => true,
    }))
}

/// Whether following `path` from `n` stays in range.
pub open spec fn path_ok(n: Node, path: Seq<usize>) -> bool {
    path_ok_in(n.children@, path)
}

/// The source range, offset by `base`, that `path` leads to among children
/// `s`: all of them for an empty path, the last child named, or an empty
/// range where a token cuts the walk short.
pub open spec fn locate_seq(s: Seq<Child>, path: Seq<usize>, base: int) -> (int, int)
    decreases path.len(),
{
    if path.len() == 0 {
        (base, base + seq_text(s).len())
    } else {
        let i = path[0] as int;
        let at = base + seq_text(s.take(i)).len();
        if path.len() == 1 {
            (at, at + child_text(s[i]).len())
        } else {
            match s[i] {
                Child::Token(_) => (at, at),
                Child::Node(m) => locate_seq(m.children@, path.drop_first(), at),
            }
        }
    }
}

/// The source range, offset by `base`, that `path` leads to from `n`.
pub open spec fn locate_in(n: Node, path: Seq<usize>, base: int) -> (int, int) {
    locate_seq(n.children@, path, base)
}

proof fn lemma_seq_split(s: Seq<Child>, i: int)
    requires
        0 <= i < s.len(),
    ensures
        seq_text(s) == seq_text(s.take(i)) + child_text(s[i]) + seq_text(s.skip(i + 1)),
        seq_counts(s).0 == seq_counts(s.take(i)).0 + child_counts(s[i]).0 + seq_counts(s.skip(i + 1)).0,
        seq_counts(s).1 == seq_counts(s.take(i)).1 + child_counts(s[i]).1 + seq_counts(s.skip(i + 1)).1,
{
    assert(s =~= s.take(i) + seq![s[i]] + s.skip(i + 1));
    lemma_seq_append(s.take(i) + seq![s[i]], s.skip(i + 1));
    lemma_seq_append(s.take(i), seq![s[i]]);
    lemma_seq_single(s[i]);
}

/// Find the `n`-th token under `node`, counting down `n`; on success the
/// child indices leading to it are appended to `path`.
fn walk(node: &Node, n: &mut usize, path: &mut Vec<usize>) -> (found: bool)
    ensures
        !found ==> *old(n) >= node_counts(*node).1 && *final(n) == *old(n) - node_counts(*node).1 && final(path)@ == old(path)@,
        found ==> *old(n) < node_counts(*node).1 && final(path)@.len() > old(path)@.len()
            && final(path)@.take(old(path)@.len() as int) == old(path)@
            && token_index(*node, final(path)@.skip(old(path)@.len() as int)) == Some(*old(n) as nat),
    decreases node_counts(*node).0,
{
    proof {
        lemma_node(*node);
    }
    let ghost p0 = path@;
    let ghost n0 = *n;
    let mut i: usize = 0;
    proof {
        assert(node.children@.take(0) =~= Seq::<Child>::empty());
    }
    while i < node.children.len()
        invariant
            i <= node.children@.len(),
            node_counts(*node) == (seq_counts(node.children@).0 + 1, seq_counts(node.children@).1),
            n0 == *old(n),
            p0 == old(path)@,
            path@ == p0,
            n0 >= seq_counts(node.children@.take(i as int)).1,
            *n == n0 - seq_counts(node.children@.take(i as int)).1,
        decreases node.children@.len() - i,
    {
        proof {
            lemma_seq_split(node.children@, i as int);
            assert(node.children@.take(i + 1) =~= node.children@.take(i as int) + seq![node.children@[i as int]]);
            lemma_seq_append(node.children@.take(i as int), seq![node.children@[i as int]]);
            lemma_seq_single(node.children@[i as int]);
        }
        match &node.children[i] {
            Child::Token(_) => {
                if *n == 0 {
                    path.push(i);
                    proof {
                        assert(path@.take(p0.len() as int) =~= p0);
                        assert(path@.skip(p0.len() as int) =~= seq![i]);
                        assert(seq![i].drop_first() =~= Seq::<usize>::empty());
                        lemma_take_bound(node.children@, i as int);
                    }
                    return true;
                }
                *n = *n - 1;
            },
            Child::Node(inner) => {
                path.push(i);
                proof {
                    lemma_node(*inner);
                }
                let ghost at_call = *n;
                let ghost pushed = path@;
                if walk(inner, n, path) {
                    proof {
                        let tail = path@.skip(pushed.len() as int);
                        assert(pushed == p0.push(i));
                        assert(path@.take(pushed.len() as int) == pushed);
                        assert(path@[p0.len() as int] == path@.take(pushed.len() as int)[p0.len() as int]);
                        assert(path@[p0.len() as int] == i);
                        assert(path@.skip(p0.len() as int) =~= seq![i] + tail);
                        assert((seq![i] + tail).drop_first() =~= tail);
                        assert(path@.take(p0.len() as int) =~= p0) by {
                            assert(path@.take(pushed.len() as int) == pushed);
                        }
                        lemma_take_bound(node.children@, i as int);
                    }
                    return true;
                }
                path.pop();
                proof {
                    assert(path@ =~= p0);
                }
            },
        }
        i = i + 1;
    }
    proof {
        assert(node.children@.take(i as int) =~= node.children@);
    }
    false
}

proof fn lemma_take_bound(s: Seq<Child>, i: int)
    requires
        0 <= i < s.len(),
    ensures
        seq_counts(s.take(i)).1 + child_counts(s[i]).1 <= seq_counts(s).1,
{
    lemma_seq_split(s, i);
}

/// The child indices that lead from the root to the `n`-th token in document
/// order, or `None` when there are no more than `n` tokens.
pub fn nth_token_path(tree: &Tree, n: usize) -> (r: Option<Vec<usize>>)
    ensures
        r is Some <==> n < node_counts(tree.root).1,
        r matches Some(p) ==> token_index(tree.root, p@) == Some(n as nat),
{
    let mut n = n;
    let mut path: Vec<usize> = Vec::new();
    if walk(&tree.root, &mut n, &mut path) {
        proof {
            assert(path@.skip(0) =~= path@);
        }
        Some(path)
    } else {
        None
    }
}

/// A range found from a base is the range found from zero, shifted.
proof fn lemma_locate_shift(s: Seq<Child>, path: Seq<usize>, base: int)
    ensures
        locate_seq(s, path, base) == (base + locate_seq(s, path, 0).0, base + locate_seq(s, path, 0).1),
    decreases path.len(),
{
    if path.len() > 1 {
        let i = path[0] as int;
        match s[i] {
            Child::Node(m) => {
                let x = seq_text(s.take(i)).len() as int;
                lemma_locate_shift(m.children@, path.drop_first(), base + x);
                lemma_locate_shift(m.children@, path.drop_first(), x);
            },
            Child::Token(_) => {},
        }
    }
}

/// A path to a token leads to a range inside the text, as long as the
/// token's text.
proof fn lemma_locate_bounds(s: Seq<Child>, path: Seq<usize>)
    requires
        token_index_in(s, path) is Some,
    ensures
        0 <= locate_seq(s, path, 0).0 <= locate_seq(s, path, 0).1 <= seq_text(s).len(),
    decreases path.len(),
{
    let i = path[0] as int;
    lemma_seq_split(s, i);
    let x = seq_text(s.take(i)).len() as int;
    if path.len() > 1 {
        match s[i] {
            Child::Node(m) => {
                lemma_locate_bounds(m.children@, path.drop_first());
                lemma_locate_shift(m.children@, path.drop_first(), x);
                lemma_node(m);
            },
            Child::Token(_) => {},
        }
    }
}

/// What replacing one child does to the text and counts of its siblings.
proof fn lemma_replaced(s: Seq<Child>, q: Seq<usize>, c: Child, text: Seq<u8>)
    requires
        q.len() >= 1,
        0 <= q[0] < s.len(),
        child_counts(c) == child_counts(s[q[0] as int]),
        q.len() == 1 ==> match s[q[0] as int] {
            Child::Token(_) => child_text(c) == text,
            Child::Node(_) => c == s[q[0] as int],
        },
        q.len() > 1 ==> match s[q[0] as int] {
            Child::Token(_) => c == s[q[0] as int],
            Child::Node(m) => c is Node && ({
                let t = seq_text(m.children@);
                let (a, b) = locate_seq(m.children@, q.drop_first(), 0);
                if token_index_in(m.children@, q.drop_first()) is Some {
                    child_text(c) == t.take(a) + text + t.skip(b)
                } else {
                    child_text(c) == t
                }
            }),
        },
    ensures
        seq_counts(s.update(q[0] as int, c)) == seq_counts(s),
        ({
            let t = seq_text(s);
            let (a, b) = locate_seq(s, q, 0);
            if token_index_in(s, q) is Some {
                seq_text(s.update(q[0] as int, c)) == t.take(a) + text + t.skip(b)
            } else {
                seq_text(s.update(q[0] as int, c)) == t
            }
        }),
{
    let i = q[0] as int;
    let s2 = s.update(i, c);
    lemma_seq_split(s, i);
    lemma_seq_split(s2, i);
    assert(s2.take(i) =~= s.take(i));
    assert(s2.skip(i + 1) =~= s.skip(i + 1));
    let x = seq_text(s.take(i));
    let y = seq_text(s.skip(i + 1));
    let t = seq_text(s);
    let c0 = s[i];
    if q.len() == 1 {
        match c0 {
            Child::Token(_) => {
                assert(t.take(x.len() as int) =~= x);
                assert(t.skip((x.len() + child_text(c0).len()) as int) =~= y);
            },
            Child::Node(_) => {},
        }
    } else {
        match c0 {
            Child::Node(m) => {
                let inner = q.drop_first();
                let (a2, b2) = locate_seq(m.children@, inner, 0);
                lemma_locate_shift(m.children@, inner, x.len() as int);
                lemma_node(m);
                if token_index_in(m.children@, inner) is Some {
                    lemma_locate_bounds(m.children@, inner);
                    let ct = child_text(c0);
                    assert(ct == seq_text(m.children@));
                    assert(t.take(x.len() + a2) =~= x + ct.take(a2));
                    assert(t.skip(x.len() + b2) =~= ct.skip(b2) + y);
                }
            },
            Child::Token(_) => {},
        }
    }
}

/// Replace the token `path[at..]` leads to under `node`, in place.
fn replace_in(node: &mut Node, path: &[usize], at: usize, text: &[u8])
    requires
        at < path@.len(),
        path_ok(*old(node), path@.skip(at as int)),
    ensures
        node_counts(*final(node)) == node_counts(*old(node)),
        final(node).kind == old(node).kind,
        ({
            let q = path@.skip(at as int);
            let t = node_text(*old(node));
            let (a, b) = locate_in(*old(node), q, 0);
            if token_index(*old(node), q) is Some {
                node_text(*final(node)) == t.take(a) + text@ + t.skip(b)
            } else {
                node_text(*final(node)) == t
            }
        }),
    decreases path@.len() - at,
{
    let ghost q = path@.skip(at as int);
    let ghost s = node.children@;
    let ghost old_node = *node;
    let idx = path[at];
    proof {
        assert(q[0] == idx);
        assert(q.drop_first() =~= path@.skip(at + 1));
        lemma_node(old_node);
    }
    let mut c = node.children.remove(idx);
    let ghost c0 = c;
    proof {
        assert(c0 == s[idx as int]);
    }
    if at + 1 == path.len() {
        match &mut c {
            Child::Token(tok) => {
                tok.text = vstd::slice::slice_to_vec(text);
            },
            Child::Node(_) => {},
        }
    } else {
        match &mut c {
            Child::Node(inner) => {
                proof {
                    lemma_node(*inner);
                }
                replace_in(inner, path, at + 1, text);
                proof {
                    lemma_node(*inner);
                }
            },
            Child::Token(_) => {},
        }
    }
    proof {
        lemma_replaced(s, q, c, text@);
    }
    node.children.insert(idx, c);
    proof {
        assert(node.children@ =~= s.update(idx as int, c));
        lemma_node(*node);
    }
}

/// Replace the text of the token `path` leads to, in place. A path that
/// leads to a node, or that a token cuts short, changes nothing.
pub fn replace_token(tree: &mut Tree, path: &[usize], text: &[u8])
    requires
        path_ok(old(tree).root, path@),
    ensures
        node_counts(final(tree).root) == node_counts(old(tree).root),
        final(tree).root.kind == old(tree).root.kind,
        ({
            let t = node_text(old(tree).root);
            let (a, b) = locate_in(old(tree).root, path@, 0);
            if token_index(old(tree).root, path@) is Some {
                node_text(final(tree).root) == t.take(a) + text@ + t.skip(b)
            } else {
                node_text(final(tree).root) == t
            }
        }),
{
    if path.len() == 0 {
        return;
    }
    proof {
        assert(path@.skip(0) =~= path@);
    }
    replace_in(&mut tree.root, path, 0, text);
}

/// The byte length of a child's text.
fn child_len(c: &Child) -> (r: u32)
    requires
        child_text(*c).len() <= u32::MAX,
    ensures
        r == child_text(*c).len(),
    decreases child_counts(*c).0 + child_counts(*c).1,
{
    match c {
        Child::Token(tok) => {
            let n = tok.text.len();
            proof {
                assert(child_text(*c) == tok.text@);
                assert(n <= u32::MAX);
            }
            n as u32
        },
        Child::Node(node) => {
            proof {
                lemma_node(*node);
                assert(node.children@.take(node.children@.len() as int) =~= node.children@);
                assert(child_text(*c) == node_text(*node));
            }
            prefix_len(node, node.children.len())
        },
    }
}

/// The byte length of a node's first `k` children.
fn prefix_len(node: &Node, k: usize) -> (r: u32)
    requires
        k <= node.children@.len(),
        node_text(*node).len() <= u32::MAX,
    ensures
        r == seq_text(node.children@.take(k as int)).len(),
    decreases node_counts(*node).0 + node_counts(*node).1, 0nat,
{
    proof {
        lemma_node(*node);
    }
    let mut total: u32 = 0;
    let mut j: usize = 0;
    proof {
        assert(node.children@.take(0) =~= Seq::<Child>::empty());
    }
    while j < k
        invariant
            j <= k <= node.children@.len(),
            node_text(*node) == seq_text(node.children@),
            node_counts(*node) == (seq_counts(node.children@).0 + 1, seq_counts(node.children@).1),
            node_text(*node).len() <= u32::MAX,
            total == seq_text(node.children@.take(j as int)).len(),
        decreases k - j,
    {
        proof {
            lemma_seq_split(node.children@, j as int);
            assert(node.children@.take(j + 1) =~= node.children@.take(j as int) + seq![node.children@[j as int]]);
            lemma_seq_append(node.children@.take(j as int), seq![node.children@[j as int]]);
            lemma_seq_single(node.children@[j as int]);
        }
        let add = child_len(&node.children[j]);
        total = total + add;
        j = j + 1;
    }
    total
}

fn locate_rec(node: &Node, path: &[usize], at: usize, base: u32) -> (r: (u32, u32))
    requires
        at < path@.len(),
        path_ok(*node, path@.skip(at as int)),
        base + node_text(*node).len() <= u32::MAX,
    ensures
        (r.0 as int, r.1 as int) == locate_in(*node, path@.skip(at as int), base as int),
    decreases path@.len() - at,
{
    let ghost q = path@.skip(at as int);
    let idx = path[at];
    proof {
        assert(q[0] == idx);
        assert(q.drop_first() =~= path@.skip(at + 1));
        lemma_node(*node);
        lemma_seq_split(node.children@, idx as int);
    }
    let before = prefix_len(node, idx);
    let here = base + before;
    if at + 1 == path.len() {
        let len = child_len(&node.children[idx]);
        return (here, here + len);
    }
    match &node.children[idx] {
        Child::Token(_) => (here, here),
        Child::Node(inner) => {
            proof {
                lemma_node(*inner);
            }
            locate_rec(inner, path, at + 1, here)
        },
    }
}

/// The absolute source range of what `path` leads to. The tree keeps no
/// offsets, so this sums the text of everything before the target.
pub fn locate(tree: &Tree, path: &[usize]) -> (r: (u32, u32))
    requires
        path_ok(tree.root, path@),
        node_text(tree.root).len() <= u32::MAX,
    ensures
        (r.0 as int, r.1 as int) == locate_in(tree.root, path@, 0),
{
    if path.len() == 0 {
        proof {
            lemma_node(tree.root);
            assert(tree.root.children@.take(tree.root.children@.len() as int) =~= tree.root.children@);
        }
        return (0, prefix_len(&tree.root, tree.root.children.len()));
    }
    proof {
        assert(path@.skip(0) =~= path@);
    }
    locate_rec(&tree.root, path, 0, 0)
}

/// A path that leads to a token can be followed without leaving the tree.
pub proof fn lemma_token_path_ok(n: Node, path: Seq<usize>)
    requires
        token_index(n, path) is Some,
    ensures
        path_ok(n, path),
{
    lemma_token_path_ok_in(n.children@, path);
}

proof fn lemma_token_path_ok_in(s: Seq<Child>, path: Seq<usize>)
    requires
        token_index_in(s, path) is Some,
    ensures
        path_ok_in(s, path),
    decreases path.len(),
{
    if path.len() > 1 {
        match s[path[0] as int] {
            Child::Node(m) => lemma_token_path_ok_in(m.children@, path.drop_first()),
            Child::Token(_) => {},
        }
    }
}


// --- the edit check ------------------------------------------------------------------

pub(crate) proof fn lemma_flat_append(a: Seq<Seq<u8>>, b: Seq<Seq<u8>>)
    ensures
        flat(a + b) == flat(a) + flat(b),
    decreases b.len(),
{
    if b.len() == 0 {
        assert(a + b =~= a);
        assert(flat(a) + Seq::<u8>::empty() =~= flat(a));
    } else {
        assert((a + b).drop_last() =~= a + b.drop_last());
        lemma_flat_append(a, b.drop_last());
        vstd::seq_lib::lemma_concat_associative(flat(a), flat(b.drop_last()), b.last());
    }
}

proof fn lemma_child_flat(c: Child)
    ensures
        child_text(c) == flat(child_tokens(c)),
        child_counts(c).1 == child_tokens(c).len(),
    decreases c, 0nat,
{
    match c {
        Child::Token(t) => {
            let one = seq![t.text@];
            assert(one.drop_last() =~= Seq::<Seq<u8>>::empty());
            assert(one.last() == t.text@);
            assert(flat(one) == flat(one.drop_last()) + one.last());
            assert(flat(Seq::<Seq<u8>>::empty()) == Seq::<u8>::empty());
            assert(Seq::<u8>::empty() + t.text@ =~= t.text@);
            assert(child_tokens(c) == one);
        },
        Child::Node(n) => {
            lemma_upto_flat(n, n.children@.len());
        },
    }
}

proof fn lemma_upto_flat(n: Node, k: nat)
    ensures
        text_upto(n, k) == flat(tokens_upto(n, k)),
        counts_upto(n, k).1 == tokens_upto(n, k).len(),
    decreases n, k,
{
    if k > 0 && k <= n.children@.len() {
        lemma_upto_flat(n, (k - 1) as nat);
        lemma_child_flat(n.children@[k - 1]);
        lemma_flat_append(tokens_upto(n, (k - 1) as nat), child_tokens(n.children@[k - 1]));
    }
}

/// Children read as their tokens' texts, one after another.
proof fn lemma_seq_flat(s: Seq<Child>)
    ensures
        seq_text(s) == flat(seq_tokens(s)),
        seq_counts(s).1 == seq_tokens(s).len(),
    decreases s.len(),
{
    if s.len() > 0 {
        lemma_seq_flat(s.drop_last());
        lemma_child_flat(s.last());
        lemma_flat_append(seq_tokens(s.drop_last()), child_tokens(s.last()));
    }
}

/// The range `path` leads to is the range of the token it names, counted in
/// the texts of the tokens before it.
proof fn lemma_locate_tokens(s: Seq<Child>, path: Seq<usize>, base: int, k: nat)
    requires
        token_index_in(s, path) == Some(k),
    ensures
        k < seq_tokens(s).len(),
        locate_seq(s, path, base) == (base + flat(seq_tokens(s).take(k as int)).len(), base + flat(seq_tokens(s).take(k as int)).len()
            + seq_tokens(s)[k as int].len()),
    decreases path.len(),
{
    let i = path[0] as int;
    let front = s.take(i);
    let a = seq_tokens(front);
    let c = child_tokens(s[i]);
    let b = seq_tokens(s.skip(i + 1));
    lemma_seq_split(s, i);
    assert(s =~= front + seq![s[i]] + s.skip(i + 1));
    lemma_seq_append(front + seq![s[i]], s.skip(i + 1));
    lemma_seq_append(front, seq![s[i]]);
    lemma_seq_single(s[i]);
    assert(seq_tokens(s) == a + c + b);
    lemma_seq_flat(front);
    match s[i] {
        Child::Token(t) => {
            assert(c == seq![t.text@]);
            assert((a + c + b).take(a.len() as int) =~= a);
            assert((a + c + b)[a.len() as int] == t.text@);
        },
        Child::Node(m) => {
            let inner = path.drop_first();
            let kk = (k - a.len()) as nat;
            assert(token_index_in(m.children@, inner) == Some(kk));
            lemma_node(m);
            lemma_locate_tokens(m.children@, inner, base + seq_text(front).len(), kk);
            assert(c == seq_tokens(m.children@));
            if path.len() == 1 {
                assert(inner.len() == 0);
            }
            assert((a + c + b).take(k as int) =~= a + c.take(kk as int));
            lemma_flat_append(a, c.take(kk as int));
            assert((a + c + b)[k as int] == c[kk as int]);
        },
    }
}

/// Token texts read as the tokens' bytes.
pub(crate) proof fn lemma_flat_tok_texts(s: Seq<u8>, ts: Seq<Tok>)
    ensures
        flat(tok_texts(s, ts)) == toks_text(s, ts),
    decreases ts.len(),
{
    if ts.len() > 0 {
        lemma_flat_tok_texts(s, ts.drop_last());
        assert(tok_texts(s, ts).drop_last() =~= tok_texts(s, ts.drop_last()));
    }
}


/// The edit check on the owned tree. In a tree built from a lexed input, a
/// path that names the `n`-th token in document order locates the lexer's
/// `n`-th token's range of the input, so [`replace_token`] on it splices the
/// new text over exactly that range.
pub proof fn lemma_edit_check(root: Node, s: Seq<u8>, ts: Seq<Tok>, ls: Seq<LineSpan>, path: Seq<usize>, n: nat)
    requires
        lexes(s, ts, ls),
        node_tokens(root) == tok_texts(s, lines_toks(ts, ls, 0, ls.len() as int)),
        token_index(root, path) == Some(n),
    ensures
        n < ts.len(),
        locate_in(root, path, 0) == (ts[n as int].start as int, tok_end(ts[n as int])),
{
    lemma_lex_is_lossless(s, ts, ls);
    if ls.len() == 0 {
        assert(ts.len() == 0);
        assert(lines_toks(ts, ls, 0, 0) =~= ts);
    } else {
        super::arena::lemma_lines_toks_range(ts, ls, 0);
        assert(ts.subrange(0, ts.len() as int) =~= ts);
    }
    let tt = tok_texts(s, ts);
    lemma_node(root);
    lemma_locate_tokens(root.children@, path, 0, n);
    assert(tt.take(n as int) =~= tok_texts(s, ts.take(n as int)));
    lemma_flat_tok_texts(s, ts.take(n as int));
    super::arena::lemma_tiles_splice(s, ts, n as int);
    assert(tok_end(ts[n as int]) <= s.len());
    assert(tt[n as int] == tok_bytes(s, ts[n as int]));
}

} // verus!
