//! The flat arena of spans: one `Vec<Elem>` for the whole tree, children as
//! `first_child` / `next_sibling` links of `u32` indices, and tokens as spans
//! into the source buffer the tree keeps, so an unedited file stores no text
//! beyond the input. An edit writes an owned override into a side table and
//! points the token at it. Indices are unchecked by the type system and the
//! arena is not persistent; ancestors' recorded lengths go stale on an edit.
use super::owned::lines_tokens;
use super::lex::{
    fits, is_plan, lemma_lex_is_lossless, lemma_lines_cover, lemma_tiles_text, line_text, lines_partition, lines_text, lexes,
    tiles_to, tok_bytes, tok_end, toks_text, Kind, Lexed, LineSpan, Tok,
};
use vstd::prelude::*;

verus! {

/// The absent index: no child, no sibling, no override.
pub const NONE: u32 = 4294967295;

/// One element: a token or a node.
#[derive(Clone, Copy, Debug)]
pub struct Elem {
    /// What it is.
    pub kind: Kind,
    /// Whether it is a token.
    pub is_token: bool,
    /// Span into the source (tokens), or the covering span (nodes).
    pub start: u32,
    /// Length of that span.
    pub len: u32,
    /// First child, or [`NONE`].
    pub first_child: u32,
    /// Next sibling, or [`NONE`].
    pub next_sibling: u32,
    /// Index into the overrides, or [`NONE`] while the token reads the source.
    pub over: u32,
}

/// A whole tree: its elements, the texts edits wrote, its root, and the
/// one copy of the source it indexes into.
#[derive(Debug)]
pub struct Tree {
    /// Every element, children before their parents.
    pub elems: Vec<Elem>,
    /// Texts written by edits.
    pub overrides: Vec<Vec<u8>>,
    /// The document element.
    pub root: u32,
    /// The source buffer.
    pub src: Vec<u8>,
}

// --- what a tree holds ----------------------------------------------------------

/// A tree as the specifications read it: its elements, its source, and the
/// texts edits wrote.
pub struct ArenaView {
    pub es: Seq<Elem>,
    pub src: Seq<u8>,
    pub ovs: Seq<Seq<u8>>,
}

/// The view of a tree.
pub open spec fn view_of(t: Tree) -> ArenaView {
    ArenaView { es: t.elems@, src: t.src@, ovs: Seq::new(t.overrides@.len(), |i: int| t.overrides@[i]@) }
}

/// The sibling list that starts at `first`, followed for at most `fuel` steps.
pub open spec fn chain(es: Seq<Elem>, first: u32, fuel: nat) -> Seq<u32>
    decreases fuel,
{
    if first == NONE || fuel == 0 || first >= es.len() {
        Seq::empty()
    } else {
        seq![first] + chain(es, es[first as int].next_sibling, (fuel - 1) as nat)
    }
}

/// Whether the sibling list at `first` ends within `fuel` steps, inside the arena.
pub open spec fn chain_ok(es: Seq<Elem>, first: u32, fuel: nat) -> bool
    decreases fuel,
{
    first == NONE || (fuel > 0 && first < es.len() && chain_ok(es, es[first as int].next_sibling, (fuel - 1) as nat))
}

/// An element's children, in order.
pub open spec fn kids(es: Seq<Elem>, id: int) -> Seq<u32> {
    chain(es, es[id].first_child, es.len())
}

/// The bytes a token reads: its override, or its span of the source.
pub open spec fn token_text(t: ArenaView, id: int) -> Seq<u8> {
    let e = t.es[id];
    if e.over == NONE {
        t.src.subrange(e.start as int, e.start + e.len)
    } else {
        t.ovs[e.over as int]
    }
}

/// The bytes under element `id`, in document order.
pub open spec fn elem_text(t: ArenaView, id: int) -> Seq<u8>
    decreases id, 1nat,
{
    if id < 0 || id >= t.es.len() {
        Seq::empty()
    } else if t.es[id].is_token {
        token_text(t, id)
    } else {
        list_text(t, kids(t.es, id), id)
    }
}

/// The bytes under the elements `ks` below `bound`, in order.
pub open spec fn list_text(t: ArenaView, ks: Seq<u32>, bound: int) -> Seq<u8>
    decreases bound, 0nat, ks.len(),
{
    if ks.len() == 0 {
        Seq::empty()
    } else {
        list_text(t, ks.drop_last(), bound) + (if 0 <= ks.last() < bound { elem_text(t, ks.last() as int) } else { Seq::empty() })
    }
}

/// The tokens under element `id`, in document order.
pub open spec fn elem_tokens(es: Seq<Elem>, id: int) -> Seq<u32>
    decreases id, 1nat,
{
    if id < 0 || id >= es.len() {
        Seq::empty()
    } else if es[id].is_token {
        seq![id as u32]
    } else {
        list_tokens(es, kids(es, id), id)
    }
}

/// The tokens under the elements `ks` below `bound`, in order.
pub open spec fn list_tokens(es: Seq<Elem>, ks: Seq<u32>, bound: int) -> Seq<u32>
    decreases bound, 0nat, ks.len(),
{
    if ks.len() == 0 {
        Seq::empty()
    } else {
        list_tokens(es, ks.drop_last(), bound) + (if 0 <= ks.last() < bound { elem_tokens(es, ks.last() as int) } else { Seq::empty() })
    }
}

/// Whether a tree is well formed: the root is a node, every node's sibling
/// list ends inside the arena and holds only earlier elements, and every
/// token reads inside the source or an existing override.
pub open spec fn wf(t: Tree) -> bool {
    let es = t.elems@;
    &&& es.len() <= NONE
    &&& t.root < es.len()
    &&& !es[t.root as int].is_token
    &&& forall|id: int| 0 <= id < es.len() && !(#[trigger] es[id]).is_token ==> chain_ok(es, es[id].first_child, es.len())
    &&& forall|id: int, k: int| 0 <= id < es.len() && !es[id].is_token && 0 <= k < kids(es, id).len() ==> #[trigger] kids(es, id)[k] < id
    &&& forall|id: int| 0 <= id < es.len() && (#[trigger] es[id]).is_token ==> (es[id].over == NONE ==> es[id].start + es[id].len <= t.src@.len())
        && (es[id].over != NONE ==> es[id].over < t.overrides@.len())
}

/// Whether every node's sibling list ends inside the arena and holds only
/// earlier elements.
pub open spec fn shape_ok(es: Seq<Elem>) -> bool {
    &&& forall|id: int| 0 <= id < es.len() && !(#[trigger] es[id]).is_token ==> chain_ok(es, es[id].first_child, es.len())
    &&& forall|id: int, k: int| 0 <= id < es.len() && !es[id].is_token && 0 <= k < kids(es, id).len() ==> #[trigger] kids(es, id)[k] < id
}

/// The tree's bytes, in document order.
pub open spec fn tree_text(t: Tree) -> Seq<u8> {
    elem_text(view_of(t), t.root as int)
}

/// The tree's tokens, in document order.
pub open spec fn tree_tokens(t: Tree) -> Seq<u32> {
    elem_tokens(t.elems@, t.root as int)
}

/// The number of elements under element `id`, itself included.
pub open spec fn elem_size(es: Seq<Elem>, id: int) -> nat
    decreases id, 1nat,
{
    if id < 0 || id >= es.len() || es[id].is_token {
        1
    } else {
        1 + list_size(es, kids(es, id), id)
    }
}

/// The number of elements under the elements `ks` below `bound`.
pub open spec fn list_size(es: Seq<Elem>, ks: Seq<u32>, bound: int) -> nat
    decreases bound, 0nat, ks.len(),
{
    if ks.len() == 0 {
        0
    } else {
        list_size(es, ks.drop_last(), bound) + (if 0 <= ks.last() < bound { elem_size(es, ks.last() as int) } else { 0 })
    }
}

/// Whether every index of `ks` lies below `bound`.
pub open spec fn all_below(ks: Seq<u32>, bound: int) -> bool {
    forall|k: int| 0 <= k < ks.len() ==> 0 <= #[trigger] ks[k] < bound
}

/// The text of a stack of elements whose top is its last entry: the top first.
pub open spec fn stack_text(t: ArenaView, s: Seq<u32>) -> Seq<u8>
    decreases s.len(),
{
    if s.len() == 0 { Seq::empty() } else { elem_text(t, s.last() as int) + stack_text(t, s.drop_last()) }
}

/// The tokens of a stack of elements, the top's first.
pub open spec fn stack_tokens(es: Seq<Elem>, s: Seq<u32>) -> Seq<u32>
    decreases s.len(),
{
    if s.len() == 0 { Seq::empty() } else { elem_tokens(es, s.last() as int) + stack_tokens(es, s.drop_last()) }
}

/// The size of a stack of elements.
pub open spec fn stack_size(es: Seq<Elem>, s: Seq<u32>) -> nat
    decreases s.len(),
{
    if s.len() == 0 { 0 } else { elem_size(es, s.last() as int) + stack_size(es, s.drop_last()) }
}

impl Tree {
    /// The bytes element `id` reads: its override, or its span of the source.
    pub fn text_of(&self, id: u32) -> (r: &[u8])
        requires
            id < self.elems@.len(),
            self.elems@[id as int].over == NONE ==> self.elems@[id as int].start + self.elems@[id as int].len <= self.src@.len(),
            self.elems@[id as int].over != NONE ==> self.elems@[id as int].over < self.overrides@.len(),
        ensures
            r@ == token_text(view_of(*self), id as int),
    {
        let elem = self.elems[id as usize];
        let n = self.src.len();
        if elem.over == NONE {
            let a = elem.start as usize;
            let b = a + elem.len as usize;
            &self.src.as_slice()[a..b]
        } else {
            self.overrides[elem.over as usize].as_slice()
        }
    }
}

/// Replace a token's text: one push onto the overrides and one element
/// rewritten to read it, with its length. Nothing else moves; the lengths
/// recorded on its ancestors are left as they were. On a well-formed tree
/// the tokens stay where they were, and the tree reads as their texts in
/// order with the edited token reading `text`.
pub fn replace_token(tree: &mut Tree, id: u32, text: &[u8])
    requires
        id < old(tree).elems@.len(),
        old(tree).overrides@.len() < NONE,
        text@.len() <= u32::MAX,
    ensures
        final(tree).overrides@.len() == old(tree).overrides@.len() + 1,
        final(tree).overrides@.last()@ == text@,
        final(tree).overrides@.drop_last() == old(tree).overrides@,
        final(tree).elems@ == old(tree).elems@.update(id as int, Elem {
            over: old(tree).overrides@.len() as u32,
            len: text@.len() as u32,
            ..old(tree).elems@[id as int]
        }),
        final(tree).root == old(tree).root,
        final(tree).src@ == old(tree).src@,
        wf(*old(tree)) ==> wf(*final(tree)),
        wf(*old(tree)) ==> tree_tokens(*final(tree)) == tree_tokens(*old(tree)),
        wf(*old(tree)) ==> tree_text(*final(tree)) == edited_text(view_of(*old(tree)), tree_tokens(*old(tree)), id, text@),
{
    let ghost t1 = view_of(*tree);
    tree.overrides.push(vstd::slice::slice_to_vec(text));
    let over = (tree.overrides.len() - 1) as u32;
    let mut e = tree.elems[id as usize];
    e.over = over;
    e.len = text.len() as u32;
    tree.elems.set(id as usize, e);
    proof {
        let t2 = view_of(*tree);
        let es1 = t1.es;
        let es2 = t2.es;
        assert(t2.ovs =~= t1.ovs.push(text@));
        assert(same_shape(es1, es2));
        if wf(*old(tree)) {
            let root = tree.root as int;
            lemma_tokens_same(es1, es2, root);
            let ys = tree_tokens(*old(tree));
            lemma_tokens_are_tokens(es1, root);
            assert forall|k: int| 0 <= k < ys.len() implies (if #[trigger] ys[k] == id { token_text(t2, ys[k] as int) == text@ } else {
                token_text(t2, ys[k] as int) == token_text(t1, ys[k] as int) }) by {
                let y = ys[k] as int;
                assert(0 <= y < es1.len() && es1[y].is_token);
                if ys[k] != id {
                    assert(es2[y] == es1[y]);
                    if es1[y].over != NONE {
                        assert(es1[y].over < t1.ovs.len());
                        assert(t2.ovs[es1[y].over as int] == t1.ovs[es1[y].over as int]);
                    }
                } else {
                    assert(t2.ovs[over as int] == text@);
                }
            }
            lemma_edited(t1, t2, ys, id, text@);
            lemma_elem_text_tokens(t2, root);
            lemma_shape_same(es1, es2);
            assert forall|y: int| 0 <= y < es2.len() && (#[trigger] es2[y]).is_token implies (es2[y].over == NONE ==> es2[y].start
                + es2[y].len <= tree.src@.len()) && (es2[y].over != NONE ==> es2[y].over < tree.overrides@.len()) by {
                if y != id as int {
                    assert(es2[y] == es1[y]);
                }
            }
        }
    }
}

/// Whether two arenas have the same elements, kinds of element and links.
pub open spec fn same_shape(a: Seq<Elem>, b: Seq<Elem>) -> bool {
    &&& a.len() == b.len()
    &&& forall|y: int| 0 <= y < a.len() ==> (#[trigger] a[y]).is_token == b[y].is_token && a[y].first_child == b[y].first_child
        && a[y].next_sibling == b[y].next_sibling
}

/// The bytes of the tokens `ys`, in order.
pub open spec fn tokens_text(t: ArenaView, ys: Seq<u32>) -> Seq<u8>
    decreases ys.len(),
{
    if ys.len() == 0 { Seq::empty() } else { tokens_text(t, ys.drop_last()) + token_text(t, ys.last() as int) }
}

/// The bytes of the tokens `ys`, in order, with token `x` reading `text`.
pub open spec fn edited_text(t: ArenaView, ys: Seq<u32>, x: u32, text: Seq<u8>) -> Seq<u8>
    decreases ys.len(),
{
    if ys.len() == 0 {
        Seq::empty()
    } else {
        edited_text(t, ys.drop_last(), x, text) + (if ys.last() == x { text } else { token_text(t, ys.last() as int) })
    }
}

proof fn lemma_tokens_text_append(t: ArenaView, a: Seq<u32>, b: Seq<u32>)
    ensures
        tokens_text(t, a + b) == tokens_text(t, a) + tokens_text(t, b),
    decreases b.len(),
{
    if b.len() == 0 {
        assert(a + b =~= a);
    } else {
        assert((a + b).drop_last() =~= a + b.drop_last());
        lemma_tokens_text_append(t, a, b.drop_last());
    }
}

/// An element reads as the texts of its tokens, in order.
proof fn lemma_elem_text_tokens(t: ArenaView, id: int)
    requires
        t.es.len() <= NONE,
    ensures
        elem_text(t, id) == tokens_text(t, elem_tokens(t.es, id)),
    decreases id, 1nat,
{
    if 0 <= id < t.es.len() {
        if t.es[id].is_token {
            let s = seq![id as u32];
            assert(s.drop_last() =~= Seq::<u32>::empty());
            assert(s.last() as int == id);
            assert(elem_tokens(t.es, id) == s);
            assert(tokens_text(t, s) == tokens_text(t, Seq::<u32>::empty()) + token_text(t, id));
            assert(Seq::<u8>::empty() + token_text(t, id) =~= token_text(t, id));
        } else {
            lemma_list_text_tokens(t, kids(t.es, id), id);
        }
    }
}

proof fn lemma_list_text_tokens(t: ArenaView, ks: Seq<u32>, bound: int)
    requires
        t.es.len() <= NONE,
        bound <= t.es.len(),
    ensures
        list_text(t, ks, bound) == tokens_text(t, list_tokens(t.es, ks, bound)),
    decreases bound, 0nat, ks.len(),
{
    if ks.len() > 0 {
        lemma_list_text_tokens(t, ks.drop_last(), bound);
        let last = ks.last();
        let front = list_tokens(t.es, ks.drop_last(), bound);
        if 0 <= last < bound {
            lemma_elem_text_tokens(t, last as int);
            lemma_tokens_text_append(t, front, elem_tokens(t.es, last as int));
        } else {
            assert(front + Seq::<u32>::empty() =~= front);
            assert(tokens_text(t, front) + Seq::<u8>::empty() =~= tokens_text(t, front));
        }
    }
}

/// The tokens under an element are tokens of the arena.
proof fn lemma_tokens_are_tokens(es: Seq<Elem>, id: int)
    requires
        es.len() <= NONE,
    ensures
        forall|k: int| 0 <= k < elem_tokens(es, id).len() ==> 0 <= #[trigger] elem_tokens(es, id)[k] < es.len()
            && es[elem_tokens(es, id)[k] as int].is_token,
    decreases id, 1nat,
{
    if 0 <= id < es.len() && !es[id].is_token {
        lemma_list_tokens_are_tokens(es, kids(es, id), id);
    }
}

proof fn lemma_list_tokens_are_tokens(es: Seq<Elem>, ks: Seq<u32>, bound: int)
    requires
        es.len() <= NONE,
        bound <= es.len(),
    ensures
        forall|k: int| 0 <= k < list_tokens(es, ks, bound).len() ==> 0 <= #[trigger] list_tokens(es, ks, bound)[k] < es.len()
            && es[list_tokens(es, ks, bound)[k] as int].is_token,
    decreases bound, 0nat, ks.len(),
{
    if ks.len() > 0 {
        lemma_list_tokens_are_tokens(es, ks.drop_last(), bound);
        let last = ks.last();
        let front = list_tokens(es, ks.drop_last(), bound);
        if 0 <= last < bound {
            lemma_tokens_are_tokens(es, last as int);
            let back = elem_tokens(es, last as int);
            assert forall|k: int| 0 <= k < (front + back).len() implies 0 <= #[trigger] (front + back)[k] < es.len()
                && es[(front + back)[k] as int].is_token by {
                if k < front.len() {
                    assert((front + back)[k] == front[k]);
                } else {
                    assert((front + back)[k] == back[k - front.len()]);
                }
            }
        } else {
            assert(front + Seq::<u32>::empty() =~= front);
        }
    }
}

proof fn lemma_chain_same(a: Seq<Elem>, b: Seq<Elem>, first: u32, fuel: nat)
    requires
        same_shape(a, b),
    ensures
        chain(a, first, fuel) == chain(b, first, fuel),
        chain_ok(a, first, fuel) == chain_ok(b, first, fuel),
    decreases fuel,
{
    if first != NONE && fuel > 0 && first < a.len() {
        assert(a[first as int].next_sibling == b[first as int].next_sibling);
        lemma_chain_same(a, b, a[first as int].next_sibling, (fuel - 1) as nat);
    }
}

/// Arenas of one shape hold the same tokens under each element.
proof fn lemma_tokens_same(a: Seq<Elem>, b: Seq<Elem>, id: int)
    requires
        same_shape(a, b),
    ensures
        elem_tokens(a, id) == elem_tokens(b, id),
    decreases id, 1nat,
{
    if 0 <= id < a.len() && !a[id].is_token {
        assert(a[id].first_child == b[id].first_child);
        lemma_chain_same(a, b, a[id].first_child, a.len());
        lemma_list_tokens_same(a, b, kids(a, id), id);
    }
}

proof fn lemma_list_tokens_same(a: Seq<Elem>, b: Seq<Elem>, ks: Seq<u32>, bound: int)
    requires
        same_shape(a, b),
    ensures
        list_tokens(a, ks, bound) == list_tokens(b, ks, bound),
    decreases bound, 0nat, ks.len(),
{
    if ks.len() > 0 {
        lemma_list_tokens_same(a, b, ks.drop_last(), bound);
        if 0 <= ks.last() < bound {
            lemma_tokens_same(a, b, ks.last() as int);
        }
    }
}

/// Arenas of one shape are well shaped together.
proof fn lemma_shape_same(a: Seq<Elem>, b: Seq<Elem>)
    requires
        same_shape(a, b),
        shape_ok(a),
    ensures
        shape_ok(b),
{
    assert forall|id: int| 0 <= id < b.len() && !(#[trigger] b[id]).is_token implies chain_ok(b, b[id].first_child, b.len()) by {
        assert(!a[id].is_token);
        lemma_chain_same(a, b, a[id].first_child, a.len());
    }
    assert forall|id: int, k: int| 0 <= id < b.len() && !b[id].is_token && 0 <= k < kids(b, id).len() implies #[trigger] kids(b, id)[k] < id by {
        assert(!a[id].is_token);
        lemma_chain_same(a, b, a[id].first_child, a.len());
        assert(kids(a, id)[k] < id);
    }
}

/// Reading tokens where only `x` changed, to `text`, gives the edited text.
proof fn lemma_edited(t1: ArenaView, t2: ArenaView, ys: Seq<u32>, x: u32, text: Seq<u8>)
    requires
        forall|k: int| 0 <= k < ys.len() ==> (if #[trigger] ys[k] == x { token_text(t2, ys[k] as int) == text } else {
            token_text(t2, ys[k] as int) == token_text(t1, ys[k] as int) }),
    ensures
        tokens_text(t2, ys) == edited_text(t1, ys, x, text),
    decreases ys.len(),
{
    if ys.len() > 0 {
        assert forall|k: int| 0 <= k < ys.drop_last().len() implies (if #[trigger] ys.drop_last()[k] == x {
            token_text(t2, ys.drop_last()[k] as int) == text } else {
            token_text(t2, ys.drop_last()[k] as int) == token_text(t1, ys.drop_last()[k] as int) }) by {
            assert(ys.drop_last()[k] == ys[k]);
        }
        lemma_edited(t1, t2, ys.drop_last(), x, text);
        assert(ys[ys.len() - 1] == ys.last());
    }
}

/// A well-formed tree reads as the texts of its tokens, in document order.
pub proof fn lemma_tree_reads_tokens(tree: Tree)
    requires
        wf(tree),
    ensures
        tree_text(tree) == tokens_text(view_of(tree), tree_tokens(tree)),
{
    lemma_elem_text_tokens(view_of(tree), tree.root as int);
}

/// The span an element records: `(start, start + len)`.
pub fn locate(tree: &Tree, id: u32) -> (r: (u32, u32))
    requires
        id < tree.elems@.len(),
        tree.elems@[id as int].start + tree.elems@[id as int].len <= u32::MAX,
    ensures
        r == (tree.elems@[id as int].start, (tree.elems@[id as int].start + tree.elems@[id as int].len) as u32),
{
    let elem = tree.elems[id as usize];
    (elem.start, elem.start + elem.len)
}

/// How many of the first `k` elements are nodes, and how many tokens.
pub open spec fn kind_counts(es: Seq<Elem>, k: int) -> (nat, nat)
    decreases k,
{
    if k <= 0 || k > es.len() {
        (0, 0)
    } else {
        let (a, b) = kind_counts(es, k - 1);
        if es[k - 1].is_token { (a, b + 1) } else { (a + 1, b) }
    }
}

/// How many elements are nodes and how many are tokens.
pub fn count_nodes(tree: &Tree) -> (r: (usize, usize))
    ensures
        r == (kind_counts(tree.elems@, tree.elems@.len() as int).0 as usize, kind_counts(tree.elems@, tree.elems@.len() as int).1 as usize),
{
    let mut nodes: usize = 0;
    let mut tokens: usize = 0;
    let mut i: usize = 0;
    while i < tree.elems.len()
        invariant
            i <= tree.elems@.len(),
            (nodes as nat, tokens as nat) == kind_counts(tree.elems@, i as int),
            nodes + tokens == i,
        decreases tree.elems@.len() - i,
    {
        if tree.elems[i].is_token {
            tokens = tokens + 1;
        } else {
            nodes = nodes + 1;
        }
        i = i + 1;
    }
    (nodes, tokens)
}

// --- walking a tree ---------------------------------------------------------------------

/// The bytes under the elements `ks`, in order.
pub open spec fn ks_text(t: ArenaView, ks: Seq<u32>) -> Seq<u8>
    decreases ks.len(),
{
    if ks.len() == 0 { Seq::empty() } else { ks_text(t, ks.drop_last()) + elem_text(t, ks.last() as int) }
}

/// The tokens under the elements `ks`, in order.
pub open spec fn ks_tokens(es: Seq<Elem>, ks: Seq<u32>) -> Seq<u32>
    decreases ks.len(),
{
    if ks.len() == 0 { Seq::empty() } else { ks_tokens(es, ks.drop_last()) + elem_tokens(es, ks.last() as int) }
}

/// The elements under the elements `ks`.
pub open spec fn ks_size(es: Seq<Elem>, ks: Seq<u32>) -> nat
    decreases ks.len(),
{
    if ks.len() == 0 { 0 } else { ks_size(es, ks.drop_last()) + elem_size(es, ks.last() as int) }
}

proof fn lemma_list_below(t: ArenaView, ks: Seq<u32>, bound: int)
    requires
        all_below(ks, bound),
    ensures
        list_text(t, ks, bound) == ks_text(t, ks),
        list_tokens(t.es, ks, bound) == ks_tokens(t.es, ks),
        list_size(t.es, ks, bound) == ks_size(t.es, ks),
    decreases ks.len(),
{
    if ks.len() > 0 {
        assert(all_below(ks.drop_last(), bound)) by {
            assert forall|k: int| 0 <= k < ks.drop_last().len() implies 0 <= #[trigger] ks.drop_last()[k] < bound by {
                assert(ks.drop_last()[k] == ks[k]);
            }
        }
        lemma_list_below(t, ks.drop_last(), bound);
        assert(0 <= ks[ks.len() - 1] < bound);
    }
}

/// A node of a well-formed tree reads as its children, in order.
proof fn lemma_node_kids(t: ArenaView, id: int)
    requires
        shape_ok(t.es),
        0 <= id < t.es.len(),
        !t.es[id].is_token,
    ensures
        all_below(kids(t.es, id), id),
        elem_text(t, id) == ks_text(t, kids(t.es, id)),
        elem_tokens(t.es, id) == ks_tokens(t.es, kids(t.es, id)),
        elem_size(t.es, id) == 1 + ks_size(t.es, kids(t.es, id)),
{
    let ks = kids(t.es, id);
    assert forall|k: int| 0 <= k < ks.len() implies 0 <= #[trigger] ks[k] < id by {
        assert(kids(t.es, id)[k] < id);
    }
    lemma_list_below(t, ks, id);
}

proof fn lemma_ks_append(t: ArenaView, a: Seq<u32>, b: Seq<u32>)
    ensures
        ks_text(t, a + b) == ks_text(t, a) + ks_text(t, b),
        ks_tokens(t.es, a + b) == ks_tokens(t.es, a) + ks_tokens(t.es, b),
        ks_size(t.es, a + b) == ks_size(t.es, a) + ks_size(t.es, b),
    decreases b.len(),
{
    if b.len() == 0 {
        assert(a + b =~= a);
    } else {
        assert((a + b).drop_last() =~= a + b.drop_last());
        lemma_ks_append(t, a, b.drop_last());
    }
}

proof fn lemma_ks_single(t: ArenaView, k: u32)
    ensures
        ks_text(t, seq![k]) == elem_text(t, k as int),
        ks_tokens(t.es, seq![k]) == elem_tokens(t.es, k as int),
        ks_size(t.es, seq![k]) == elem_size(t.es, k as int),
{
    let s = seq![k];
    assert(s.drop_last() =~= Seq::<u32>::empty());
    assert(s.last() == k);
    assert(ks_text(t, Seq::<u32>::empty()) == Seq::<u8>::empty());
    assert(ks_tokens(t.es, Seq::<u32>::empty()) == Seq::<u32>::empty());
    assert(ks_size(t.es, Seq::<u32>::empty()) == 0);
    assert(Seq::<u8>::empty() + elem_text(t, k as int) =~= elem_text(t, k as int));
    assert(Seq::<u32>::empty() + elem_tokens(t.es, k as int) =~= elem_tokens(t.es, k as int));
}

/// The children of node `id`, following its sibling links.
fn collect_kids(tree: &Tree, id: u32) -> (r: Vec<u32>)
    requires
        id < tree.elems@.len(),
        chain_ok(tree.elems@, tree.elems@[id as int].first_child, tree.elems@.len()),
    ensures
        r@ == kids(tree.elems@, id as int),
{
    let ghost es = tree.elems@;
    let mut out: Vec<u32> = Vec::new();
    let mut child = tree.elems[id as usize].first_child;
    let ghost mut fuel: nat = es.len();
    proof {
        assert(out@ + chain(es, child, fuel) =~= kids(es, id as int));
    }
    while child != NONE
        invariant
            es == tree.elems@,
            out@ + chain(es, child, fuel) == kids(es, id as int),
            chain_ok(es, child, fuel),
        decreases fuel,
    {
        let ghost before = out@;
        out.push(child);
        proof {
            assert(chain(es, child, fuel) == seq![child] + chain(es, es[child as int].next_sibling, (fuel - 1) as nat));
            assert(out@ + chain(es, es[child as int].next_sibling, (fuel - 1) as nat) =~= before + chain(es, child, fuel));
        }
        child = tree.elems[child as usize].next_sibling;
        proof {
            fuel = (fuel - 1) as nat;
        }
    }
    proof {
        assert(out@ + Seq::<u32>::empty() =~= out@);
    }
    out
}

/// `ks` reversed.
pub open spec fn reversed(ks: Seq<u32>) -> Seq<u32> {
    Seq::new(ks.len(), |j: int| ks[ks.len() - 1 - j])
}

/// Push `ks` onto `stack` in reverse, so that they pop in order.
fn push_all_reversed(stack: &mut Vec<u32>, ks: &Vec<u32>, Ghost(t): Ghost<ArenaView>)
    ensures
        final(stack)@ == old(stack)@ + reversed(ks@),
        stack_text(t, final(stack)@) == ks_text(t, ks@) + stack_text(t, old(stack)@),
        stack_tokens(t.es, final(stack)@) == ks_tokens(t.es, ks@) + stack_tokens(t.es, old(stack)@),
        stack_size(t.es, final(stack)@) == ks_size(t.es, ks@) + stack_size(t.es, old(stack)@),
{
    let mut i = ks.len();
    proof {
        assert(ks@.subrange(i as int, ks@.len() as int) =~= Seq::<u32>::empty());
        assert(stack@ =~= old(stack)@ + reversed(ks@.subrange(i as int, ks@.len() as int)));
    }
    while i > 0
        invariant
            i <= ks@.len(),
            stack@ == old(stack)@ + reversed(ks@.subrange(i as int, ks@.len() as int)),
            stack_text(t, stack@) == ks_text(t, ks@.subrange(i as int, ks@.len() as int)) + stack_text(t, old(stack)@),
            stack_tokens(t.es, stack@) == ks_tokens(t.es, ks@.subrange(i as int, ks@.len() as int))
                + stack_tokens(t.es, old(stack)@),
            stack_size(t.es, stack@) == ks_size(t.es, ks@.subrange(i as int, ks@.len() as int))
                + stack_size(t.es, old(stack)@),
        decreases i,
    {
        i = i - 1;
        let ghost before = stack@;
        stack.push(ks[i]);
        proof {
            assert(stack@.drop_last() == before);
            let tail = ks@.subrange(i + 1, ks@.len() as int);
            assert(ks@.subrange(i as int, ks@.len() as int) =~= seq![ks@[i as int]] + tail);
            assert(stack@ =~= old(stack)@ + reversed(ks@.subrange(i as int, ks@.len() as int)));
            lemma_ks_append(t, seq![ks@[i as int]], tail);
            lemma_ks_single(t, ks@[i as int]);
            vstd::seq_lib::lemma_concat_associative(elem_text(t, ks@[i as int] as int), ks_text(t, tail), stack_text(t, old(stack)@));
            vstd::seq_lib::lemma_concat_associative(elem_tokens(t.es, ks@[i as int] as int), ks_tokens(t.es, tail),
                stack_tokens(t.es, old(stack)@));
        }
    }
    proof {
        assert(ks@.subrange(0, ks@.len() as int) =~= ks@);
    }
}

/// The tree's bytes, in document order: tokens read their override or their
/// source span; an explicit stack keeps depth off the call stack.
pub fn serialize(tree: &Tree) -> (out: Vec<u8>)
    requires
        wf(*tree),
    ensures
        out@ == tree_text(*tree),
{
    let ghost t = view_of(*tree);
    let mut out: Vec<u8> = Vec::new();
    let mut stack: Vec<u32> = Vec::new();
    stack.push(tree.root);
    proof {
        assert(stack@.drop_last() =~= Seq::<u32>::empty());
        assert(stack@.last() == tree.root);
        assert(stack_text(t, Seq::<u32>::empty()) == Seq::<u8>::empty());
        assert(stack_text(t, stack@) =~= tree_text(*tree));
    }
    while stack.len() > 0
        invariant
            t == view_of(*tree),
            wf(*tree),
            forall|k: int| 0 <= k < stack@.len() ==> (#[trigger] stack@[k]) < tree.elems@.len(),
            out@ + stack_text(t, stack@) == tree_text(*tree),
        decreases stack_size(tree.elems@, stack@),
    {
        let ghost before = stack@;
        let id = stack.pop().unwrap();
        proof {
            assert(before.drop_last() == stack@);
            assert(id == before[before.len() - 1]);
        }
        let elem = tree.elems[id as usize];
        if elem.is_token {
            let bytes = tree.text_of(id);
            let ghost o = out@;
            out.extend_from_slice(bytes);
            proof {
                vstd::seq_lib::lemma_concat_associative(o, bytes@, stack_text(t, stack@));
            }
        } else {
            proof {
                lemma_node_kids(t, id as int);
            }
            let ks = collect_kids(tree, id);
            let ghost sb = stack@;
            push_all_reversed(&mut stack, &ks, Ghost(t));
            proof {
                assert forall|k: int| 0 <= k < stack@.len() implies (#[trigger] stack@[k]) < tree.elems@.len() by {
                    if k >= sb.len() {
                        assert(stack@[k] == ks@[ks@.len() - 1 - (k - sb.len())]);
                    } else {
                        assert(stack@[k] == sb[k]);
                    }
                }
            }
        }
    }
    proof {
        assert(out@ + Seq::<u8>::empty() =~= out@);
    }
    out
}

/// The id of the `n`-th token in document order, or `None` when there are
/// no more than `n` tokens.
pub fn nth_token(tree: &Tree, n: usize) -> (r: Option<u32>)
    requires
        wf(*tree),
    ensures
        r == (if n < tree_tokens(*tree).len() { Some(tree_tokens(*tree)[n as int]) } else { None::<u32> }),
{
    let ghost t = view_of(*tree);
    let ghost all = tree_tokens(*tree);
    let mut seen: usize = 0;
    let mut stack: Vec<u32> = Vec::new();
    stack.push(tree.root);
    proof {
        assert(stack@.drop_last() =~= Seq::<u32>::empty());
        assert(stack@.last() == tree.root);
        assert(stack_tokens(t.es, Seq::<u32>::empty()) == Seq::<u32>::empty());
        assert(stack_tokens(t.es, stack@) =~= all);
        assert(all.take(0) + stack_tokens(t.es, stack@) =~= all);
    }
    while stack.len() > 0
        invariant
            t == view_of(*tree),
            wf(*tree),
            all == tree_tokens(*tree),
            seen <= n,
            seen <= all.len(),
            forall|k: int| 0 <= k < stack@.len() ==> (#[trigger] stack@[k]) < tree.elems@.len(),
            all.take(seen as int) + stack_tokens(t.es, stack@) == all,
        decreases stack_size(tree.elems@, stack@),
    {
        let ghost before = stack@;
        let id = stack.pop().unwrap();
        proof {
            assert(before.drop_last() == stack@);
            assert(id == before[before.len() - 1]);
        }
        let elem = tree.elems[id as usize];
        if elem.is_token {
            proof {
                assert(elem_tokens(t.es, id as int) == seq![id]);
                let rest = stack_tokens(t.es, stack@);
                assert(all.take(seen as int) + (seq![id] + rest) == all);
                assert(all[seen as int] == id) by {
                    assert((all.take(seen as int) + (seq![id] + rest))[seen as int] == id);
                }
                assert(all.take(seen + 1) + rest =~= all) by {
                    assert(all.take(seen + 1) =~= all.take(seen as int) + seq![id]);
                }
            }
            if seen == n {
                return Some(id);
            }
            seen = seen + 1;
        } else {
            proof {
                lemma_node_kids(t, id as int);
            }
            let ks = collect_kids(tree, id);
            let ghost sb = stack@;
            push_all_reversed(&mut stack, &ks, Ghost(t));
            proof {
                vstd::seq_lib::lemma_concat_associative(all.take(seen as int), ks_tokens(t.es, ks@), stack_tokens(t.es, sb));
                assert forall|k: int| 0 <= k < stack@.len() implies (#[trigger] stack@[k]) < tree.elems@.len() by {
                    if k >= sb.len() {
                        assert(stack@[k] == ks@[ks@.len() - 1 - (k - sb.len())]);
                    } else {
                        assert(stack@[k] == sb[k]);
                    }
                }
            }
        }
    }
    proof {
        assert(all.take(seen as int) + Seq::<u32>::empty() =~= all.take(seen as int));
        assert(seen == all.len());
    }
    None
}

// --- building ---------------------------------------------------------------------------

/// Whether the links of the elements encode the child lists `cm`: each
/// node's first child opens its list, each member points at the next, the
/// last at nothing; every list holds distinct, earlier elements; a token's
/// list is empty.
#[verifier::opaque]
pub open spec fn links(es: Seq<Elem>, cm: Seq<Seq<u32>>) -> bool {
    &&& cm.len() == es.len()
    &&& es.len() <= NONE
    &&& forall|id: int| #![trigger es[id].is_token] 0 <= id < es.len() && es[id].is_token ==> cm[id].len() == 0
    &&& forall|id: int| #![trigger cm[id].no_duplicates()] 0 <= id < es.len() ==> cm[id].no_duplicates()
    &&& forall|id: int, k: int| #![trigger cm[id][k]] 0 <= id < es.len() && 0 <= k < cm[id].len() ==> cm[id][k] < id
    &&& forall|id: int| #![trigger es[id].first_child] 0 <= id < es.len() && !es[id].is_token ==> es[id].first_child
        == (if cm[id].len() == 0 { NONE } else { cm[id][0] })
    &&& forall|id: int, k: int| #![trigger es[cm[id][k] as int].next_sibling] 0 <= id < es.len() && 0 <= k < cm[id].len()
        ==> es[cm[id][k] as int].next_sibling == (if k + 1 < cm[id].len() { cm[id][k + 1] } else { NONE })
}

/// A sibling list laid out by the links, followed with enough fuel, is the list.
proof fn lemma_chain_is_list(es: Seq<Elem>, l: Seq<u32>, k: int, fuel: nat)
    requires
        0 <= k <= l.len(),
        fuel >= l.len() - k,
        forall|i: int| 0 <= i < l.len() ==> (#[trigger] l[i]) < es.len(),
        forall|i: int| #![trigger es[l[i] as int].next_sibling] 0 <= i < l.len() ==> es[l[i] as int].next_sibling
            == (if i + 1 < l.len() { l[i + 1] } else { NONE }),
        forall|i: int| 0 <= i < l.len() ==> (#[trigger] l[i]) != NONE,
    ensures
        chain(es, if k < l.len() { l[k] } else { NONE }, fuel) == l.skip(k),
        chain_ok(es, if k < l.len() { l[k] } else { NONE }, fuel),
    decreases l.len() - k,
{
    if k < l.len() {
        lemma_chain_is_list(es, l, k + 1, (fuel - 1) as nat);
        assert(l.skip(k) =~= seq![l[k]] + l.skip(k + 1));
    } else {
        assert(l.skip(k) =~= Seq::<u32>::empty());
    }
}

/// Distinct indices below `b` number at most `b`.
proof fn lemma_distinct_below(l: Seq<u32>, b: int)
    requires
        b >= 0,
        l.no_duplicates(),
        forall|i: int| 0 <= i < l.len() ==> 0 <= #[trigger] l[i] < b,
    ensures
        l.len() <= b,
    decreases b,
{
    if l.len() > 0 {
        if b <= 0 {
            assert(0 <= l[0] < b);
        } else if exists|i: int| 0 <= i < l.len() && l[i] == b - 1 {
            let i = choose|i: int| 0 <= i < l.len() && l[i] == b - 1;
            let l2 = l.subrange(0, i) + l.subrange(i + 1, l.len() as int);
            assert forall|p: int, q: int| 0 <= p < l2.len() && 0 <= q < l2.len() && p != q implies l2[p] != l2[q] by {
                let pp = if p < i { p } else { p + 1 };
                let qq = if q < i { q } else { q + 1 };
                assert(l2[p] == l[pp] && l2[q] == l[qq]);
            }
            assert forall|p: int| 0 <= p < l2.len() implies 0 <= #[trigger] l2[p] < b - 1 by {
                let pp = if p < i { p } else { p + 1 };
                assert(l2[p] == l[pp]);
                assert(pp != i);
            }
            lemma_distinct_below(l2, b - 1);
            assert(l2.len() == l.len() - 1);
        } else {
            assert forall|p: int| 0 <= p < l.len() implies 0 <= #[trigger] l[p] < b - 1 by {
                assert(l[p] != b - 1);
            }
            lemma_distinct_below(l, b - 1);
        }
    }
}

/// Links that encode the lists give a well-formed structure whose children
/// are the lists.
proof fn lemma_links_at(es: Seq<Elem>, cm: Seq<Seq<u32>>, id: int)
    requires
        links(es, cm),
        0 <= id < es.len(),
        !es[id].is_token,
    ensures
        cm[id].no_duplicates(),
        forall|i: int| 0 <= i < cm[id].len() ==> 0 <= #[trigger] cm[id][i] < id && cm[id][i] != NONE,
        forall|i: int| #![trigger es[cm[id][i] as int].next_sibling] 0 <= i < cm[id].len() ==> es[cm[id][i] as int].next_sibling
            == (if i + 1 < cm[id].len() { cm[id][i + 1] } else { NONE }),
        es[id].first_child == (if cm[id].len() == 0 { NONE } else { cm[id][0] }),
{
    reveal(links);
}

proof fn lemma_links_kids(es: Seq<Elem>, cm: Seq<Seq<u32>>, id: int)
    requires
        links(es, cm),
        0 <= id < es.len(),
        !es[id].is_token,
    ensures
        kids(es, id) == cm[id],
        chain_ok(es, es[id].first_child, es.len()),
{
    let l = cm[id];
    lemma_links_at(es, cm, id);
    assert forall|i: int| 0 <= i < l.len() implies (#[trigger] l[i]) < es.len() by {
        assert(cm[id][i] < id);
    }
    lemma_distinct_below(l, id);
    lemma_chain_is_list(es, l, 0, es.len());
    assert(l.skip(0) =~= l);
}

/// Whether two elements agree on everything but their sibling link.
pub open spec fn same_data(a: Elem, b: Elem) -> bool {
    a.kind == b.kind && a.is_token == b.is_token && a.start == b.start && a.len == b.len && a.over == b.over
        && a.first_child == b.first_child
}

/// Links that encode lists make a well-shaped arena.
proof fn lemma_links_shape(es: Seq<Elem>, cm: Seq<Seq<u32>>)
    requires
        links(es, cm),
    ensures
        shape_ok(es),
{
    assert forall|id: int| 0 <= id < es.len() && !(#[trigger] es[id]).is_token implies chain_ok(es, es[id].first_child, es.len()) by {
        lemma_links_kids(es, cm, id);
    }
    assert forall|id: int, k: int| 0 <= id < es.len() && !es[id].is_token && 0 <= k < kids(es, id).len() implies #[trigger] kids(es, id)[k] < id by {
        lemma_links_kids(es, cm, id);
        lemma_links_at(es, cm, id);
        assert(cm[id][k] < id);
    }
}

/// Growing an arena and relinking elements that no list holds changes
/// nothing that an older element reads.
proof fn lemma_frame(t1: ArenaView, t2: ArenaView, cm1: Seq<Seq<u32>>, cm2: Seq<Seq<u32>>, x: int)
    requires
        links(t1.es, cm1),
        links(t2.es, cm2),
        t1.es.len() <= t2.es.len(),
        t1.src == t2.src,
        t1.ovs == t2.ovs,
        forall|y: int| 0 <= y < t1.es.len() ==> same_data(#[trigger] t1.es[y], t2.es[y]) && cm2[y] == cm1[y],
        0 <= x < t1.es.len(),
    ensures
        elem_text(t2, x) == elem_text(t1, x),
        elem_tokens(t2.es, x) == elem_tokens(t1.es, x),
    decreases x, 1nat,
{
    assert(same_data(t1.es[x], t2.es[x]));
    if !t1.es[x].is_token {
        lemma_links_kids(t1.es, cm1, x);
        lemma_links_kids(t2.es, cm2, x);
        lemma_links_at(t1.es, cm1, x);
        lemma_frame_list(t1, t2, cm1, cm2, cm1[x], x);
    }
}

proof fn lemma_frame_list(t1: ArenaView, t2: ArenaView, cm1: Seq<Seq<u32>>, cm2: Seq<Seq<u32>>, ks: Seq<u32>, x: int)
    requires
        links(t1.es, cm1),
        links(t2.es, cm2),
        t1.es.len() <= t2.es.len(),
        t1.src == t2.src,
        t1.ovs == t2.ovs,
        forall|y: int| 0 <= y < t1.es.len() ==> same_data(#[trigger] t1.es[y], t2.es[y]) && cm2[y] == cm1[y],
        0 <= x < t1.es.len(),
        all_below(ks, x),
    ensures
        list_text(t2, ks, x) == list_text(t1, ks, x),
        list_tokens(t2.es, ks, x) == list_tokens(t1.es, ks, x),
    decreases x, 0nat, ks.len(),
{
    if ks.len() > 0 {
        assert(all_below(ks.drop_last(), x)) by {
            assert forall|k: int| 0 <= k < ks.drop_last().len() implies 0 <= #[trigger] ks.drop_last()[k] < x by {
                assert(ks.drop_last()[k] == ks[k]);
            }
        }
        lemma_frame_list(t1, t2, cm1, cm2, ks.drop_last(), x);
        assert(0 <= ks[ks.len() - 1] < x);
        lemma_frame(t1, t2, cm1, cm2, ks.last() as int);
    }
}

/// A fresh token, linked to nothing, keeps the links.
proof fn lemma_links_push_token(es: Seq<Elem>, cm: Seq<Seq<u32>>, e: Elem)
    requires
        links(es, cm),
        e.is_token,
        es.len() < NONE,
    ensures
        links(es.push(e), cm.push(Seq::empty())),
{
    reveal(links);
    let es2 = es.push(e);
    let cm2 = cm.push(Seq::<u32>::empty());
    assert forall|id: int, k: int| #![trigger es2[cm2[id][k] as int].next_sibling] 0 <= id < es2.len() && 0 <= k < cm2[id].len()
        implies es2[cm2[id][k] as int].next_sibling == (if k + 1 < cm2[id].len() { cm2[id][k + 1] } else { NONE }) by {
        assert(cm2[id] == cm[id]);
        assert(cm[id][k] < id);
        assert(es2[cm[id][k] as int] == es[cm[id][k] as int]);
        assert(es[cm[id][k] as int].next_sibling == (if k + 1 < cm[id].len() { cm[id][k + 1] } else { NONE }));
    }
}

/// Whether element `x` sits in none of the lists.
pub open spec fn unlisted(cm: Seq<Seq<u32>>, x: u32) -> bool {
    forall|id: int, k: int| 0 <= id < cm.len() && 0 <= k < cm[id].len() ==> #[trigger] cm[id][k] != x
}

/// Relinking an element that no list holds keeps the links.
proof fn lemma_links_relink(es: Seq<Elem>, cm: Seq<Seq<u32>>, x: u32, v: u32)
    requires
        links(es, cm),
        x < es.len(),
        unlisted(cm, x),
    ensures
        links(es.update(x as int, Elem { next_sibling: v, ..es[x as int] }), cm),
{
    reveal(links);
    let es2 = es.update(x as int, Elem { next_sibling: v, ..es[x as int] });
    assert forall|id: int, k: int| #![trigger es2[cm[id][k] as int].next_sibling] 0 <= id < es2.len() && 0 <= k < cm[id].len()
        implies es2[cm[id][k] as int].next_sibling == (if k + 1 < cm[id].len() { cm[id][k + 1] } else { NONE }) by {
        assert(cm[id][k] != x);
        assert(es[cm[id][k] as int].next_sibling == (if k + 1 < cm[id].len() { cm[id][k + 1] } else { NONE }));
    }
    assert forall|id: int| #![trigger es2[id].first_child] 0 <= id < es2.len() && !es2[id].is_token implies es2[id].first_child
        == (if cm[id].len() == 0 { NONE } else { cm[id][0] }) by {
        assert(es2[id].first_child == es[id].first_child);
    }
    assert forall|id: int| #![trigger es2[id].is_token] 0 <= id < es2.len() && es2[id].is_token implies cm[id].len() == 0 by {
        assert(es2[id].is_token == es[id].is_token);
    }
}

/// A new node over a list already linked in order keeps the links.
proof fn lemma_links_push_node(es: Seq<Elem>, cm: Seq<Seq<u32>>, e: Elem, l: Seq<u32>)
    requires
        links(es, cm),
        !e.is_token,
        es.len() < NONE,
        l.no_duplicates(),
        forall|k: int| 0 <= k < l.len() ==> (#[trigger] l[k]) < es.len(),
        e.first_child == (if l.len() == 0 { NONE } else { l[0] }),
        forall|k: int| #![trigger es[l[k] as int].next_sibling] 0 <= k < l.len() ==> es[l[k] as int].next_sibling
            == (if k + 1 < l.len() { l[k + 1] } else { NONE }),
    ensures
        links(es.push(e), cm.push(l)),
{
    reveal(links);
    let es2 = es.push(e);
    let cm2 = cm.push(l);
    let n = es.len() as int;
    assert forall|id: int, k: int| #![trigger cm2[id][k]] 0 <= id < es2.len() && 0 <= k < cm2[id].len() implies cm2[id][k] < id by {
        if id < n {
            assert(cm2[id] == cm[id]);
        } else {
            assert(cm2[id] == l);
        }
    }
    assert forall|id: int, k: int| #![trigger es2[cm2[id][k] as int].next_sibling] 0 <= id < es2.len() && 0 <= k < cm2[id].len()
        implies es2[cm2[id][k] as int].next_sibling == (if k + 1 < cm2[id].len() { cm2[id][k + 1] } else { NONE }) by {
        if id < n {
            assert(cm2[id] == cm[id]);
            assert(cm[id][k] < id);
            assert(es[cm[id][k] as int].next_sibling == (if k + 1 < cm[id].len() { cm[id][k + 1] } else { NONE }));
        } else {
            assert(cm2[id] == l);
            assert(es2[l[k] as int] == es[l[k] as int]);
        }
    }
    assert forall|id: int| #![trigger es2[id].first_child] 0 <= id < es2.len() && !es2[id].is_token implies es2[id].first_child
        == (if cm2[id].len() == 0 { NONE } else { cm2[id][0] }) by {
        if id < n {
            assert(es2[id] == es[id]);
        }
    }
    assert forall|id: int| #![trigger cm2[id].no_duplicates()] 0 <= id < es2.len() implies cm2[id].no_duplicates() by {
        if id < n {
            assert(cm2[id] == cm[id]);
        }
    }
    assert forall|id: int| #![trigger es2[id].is_token] 0 <= id < es2.len() && es2[id].is_token implies cm2[id].len() == 0 by {
        if id < n {
            assert(es2[id] == es[id]);
        }
    }
}


// --- the builder ------------------------------------------------------------------------

/// The token an element reads as: its kind and its span.
pub open spec fn tok_of(e: Elem) -> Tok {
    Tok { kind: e.kind, start: e.start, len: e.len }
}

/// The tokens the elements `ys` read as, in order.
pub open spec fn toks_at(es: Seq<Elem>, ys: Seq<u32>) -> Seq<Tok> {
    Seq::new(ys.len(), |k: int| tok_of(es[ys[k] as int]))
}

/// The tokens of lines `a..b`, in order.
pub open spec fn lines_toks(ts: Seq<Tok>, ls: Seq<LineSpan>, a: int, b: int) -> Seq<Tok>
    decreases b - a,
{
    if a >= b { Seq::empty() } else { ts.subrange(ls[a].first as int, ls[a].end as int) + lines_toks(ts, ls, a + 1, b) }
}

/// The ids `base`, `base + 1`, ... of `count` fresh elements.
spec fn fresh(base: int, count: int) -> Seq<u32> {
    Seq::new(count as nat, |m: int| (base + m) as u32)
}

/// An arena being built: its elements and, as a ghost, the child lists
/// their links encode.
struct Builder {
    elems: Vec<Elem>,
    lists: Ghost<Seq<Seq<u32>>>,
}

/// The arena `es` over `src`, with no overrides.
pub open spec fn plain(es: Seq<Elem>, src: Seq<u8>) -> ArenaView {
    ArenaView { es, src, ovs: Seq::empty() }
}

/// Whether `(es2, cm2)` grows `(es1, cm1)`: every older element keeps all
/// but its sibling link, and its child list.
pub open spec fn grows(es1: Seq<Elem>, cm1: Seq<Seq<u32>>, es2: Seq<Elem>, cm2: Seq<Seq<u32>>) -> bool {
    &&& es1.len() <= es2.len()
    &&& forall|y: int| 0 <= y < es1.len() ==> same_data(#[trigger] es1[y], es2[y]) && cm2[y] == cm1[y]
}

/// Whether an arena under construction over `src` is sound: its links
/// encode its lists, nothing reads an override, every token reads inside
/// the source, and every node records the length of its text.
pub open spec fn sound(es: Seq<Elem>, cm: Seq<Seq<u32>>, src: Seq<u8>) -> bool {
    &&& links(es, cm)
    &&& forall|id: int| 0 <= id < es.len() ==> (#[trigger] es[id]).over == NONE
        && (es[id].is_token ==> es[id].start + es[id].len <= src.len())
        && (!es[id].is_token ==> es[id].len == elem_text(plain(es, src), id).len())
}

/// Growing a sound arena keeps the recorded lengths of its older nodes true.
proof fn lemma_sound_grow(es1: Seq<Elem>, cm1: Seq<Seq<u32>>, es2: Seq<Elem>, cm2: Seq<Seq<u32>>, src: Seq<u8>)
    requires
        sound(es1, cm1, src),
        links(es2, cm2),
        grows(es1, cm1, es2, cm2),
    ensures
        forall|y: int| 0 <= y < es1.len() ==> elem_text(plain(es2, src), y) == #[trigger] elem_text(plain(es1, src), y),
        forall|y: int| 0 <= y < es1.len() && !es2[y].is_token ==> es2[y].len == #[trigger] elem_text(plain(es2, src), y).len(),
{
    assert forall|y: int| 0 <= y < es1.len() implies elem_text(plain(es2, src), y) == #[trigger] elem_text(plain(es1, src), y) by {
        lemma_frame(plain(es1, src), plain(es2, src), cm1, cm2, y);
    }
    assert forall|y: int| 0 <= y < es1.len() && !es2[y].is_token implies es2[y].len == #[trigger] elem_text(plain(es2, src), y).len() by {
        assert(same_data(es1[y], es2[y]));
        assert(elem_text(plain(es2, src), y) == elem_text(plain(es1, src), y));
    }
}

proof fn lemma_links_len(es: Seq<Elem>, cm: Seq<Seq<u32>>)
    requires
        links(es, cm),
    ensures
        cm.len() == es.len(),
        es.len() <= NONE,
{
    reveal(links);
}

/// Whether the `k` first elements agree on which are tokens.
proof fn lemma_kind_counts_same(a: Seq<Elem>, b: Seq<Elem>, k: int)
    requires
        0 <= k <= a.len(),
        k <= b.len(),
        forall|y: int| 0 <= y < k ==> (#[trigger] a[y]).is_token == b[y].is_token,
    ensures
        kind_counts(a, k) == kind_counts(b, k),
    decreases k,
{
    if k > 0 {
        lemma_kind_counts_same(a, b, k - 1);
    }
}

proof fn lemma_kind_counts_push(es: Seq<Elem>, e: Elem)
    ensures
        kind_counts(es.push(e), es.len() + 1int) == (if e.is_token {
            (kind_counts(es, es.len() as int).0, kind_counts(es, es.len() as int).1 + 1)
        } else {
            (kind_counts(es, es.len() as int).0 + 1, kind_counts(es, es.len() as int).1)
        }),
{
    lemma_kind_counts_same(es, es.push(e), es.len() as int);
}

/// The element a token of the source becomes.
pub open spec fn token_elem(t: Tok) -> Elem {
    Elem { kind: t.kind, is_token: true, start: t.start, len: t.len, first_child: NONE, next_sibling: NONE, over: NONE }
}

/// A list whose members all read as the tokens `ts` reads as their text.
proof fn lemma_ks_toks(t: ArenaView, ks: Seq<u32>, ts: Seq<Tok>)
    requires
        ks.len() == ts.len(),
        forall|m: int| 0 <= m < ks.len() ==> elem_text(t, #[trigger] ks[m] as int) == tok_bytes(t.src, ts[m]),
    ensures
        ks_text(t, ks) == toks_text(t.src, ts),
    decreases ks.len(),
{
    if ks.len() > 0 {
        assert forall|m: int| 0 <= m < ks.drop_last().len() implies elem_text(t, #[trigger] ks.drop_last()[m] as int)
            == tok_bytes(t.src, ts.drop_last()[m]) by {
            assert(ks.drop_last()[m] == ks[m]);
        }
        lemma_ks_toks(t, ks.drop_last(), ts.drop_last());
        assert(elem_text(t, ks[ks.len() - 1] as int) == tok_bytes(t.src, ts[ts.len() - 1]));
    }
}

/// Append the tokens `first..end` of a line as fresh elements; returns
/// their ids, the least start among them (or [`NONE`]), and their total length.
fn push_line_tokens(b: &mut Builder, src: &[u8], toks: &Vec<Tok>, first: usize, end: usize) -> (r: (Vec<u32>, u32, u32))
    requires
        sound(old(b).elems@, old(b).lists@, src@),
        first <= end <= toks@.len(),
        forall|k: int| 0 <= k < toks@.len() ==> tok_end(#[trigger] toks@[k]) <= src@.len(),
        old(b).elems@.len() + (end - first) < NONE,
        toks_text(src@, toks@.subrange(first as int, end as int)).len() <= u32::MAX,
    ensures
        sound(final(b).elems@, final(b).lists@, src@),
        grows(old(b).elems@, old(b).lists@, final(b).elems@, final(b).lists@),
        final(b).elems@.len() == old(b).elems@.len() + (end - first),
        forall|y: int| 0 <= y < old(b).elems@.len() ==> #[trigger] final(b).elems@[y] == old(b).elems@[y],
        forall|x: u32| #[trigger] unlisted(old(b).lists@, x) ==> unlisted(final(b).lists@, x),
        r.0@.len() == end - first,
        forall|m: int| 0 <= m < r.0@.len() ==> #[trigger] r.0@[m] == old(b).elems@.len() + m,
        forall|m: int| 0 <= m < r.0@.len() ==> final(b).elems@[#[trigger] r.0@[m] as int].next_sibling == NONE
            && unlisted(final(b).lists@, r.0@[m]),
        forall|m: int| 0 <= m < r.0@.len() ==> #[trigger] final(b).elems@[r.0@[m] as int] == token_elem(toks@[first + m]),
        ks_text(plain(final(b).elems@, src@), r.0@) == toks_text(src@, toks@.subrange(first as int, end as int)),
        ks_tokens(final(b).elems@, r.0@) == r.0@,
        r.2 as nat == ks_text(plain(final(b).elems@, src@), r.0@).len(),
        kind_counts(final(b).elems@, final(b).elems@.len() as int) == (kind_counts(old(b).elems@, old(b).elems@.len() as int).0,
            kind_counts(old(b).elems@, old(b).elems@.len() as int).1 + (end - first) as nat),
{
    let ghost es0 = b.elems@;
    let ghost cm0 = b.lists@;
    let ghost s = src@;
    let ghost ts = toks@.subrange(first as int, end as int);
    let mut ids: Vec<u32> = Vec::new();
    let mut start: u32 = NONE;
    let mut len: u32 = 0;
    let mut k = first;
    proof {
        lemma_links_len(es0, cm0);
        assert(toks@.subrange(first as int, first as int) =~= Seq::<Tok>::empty());
        lemma_ks_toks(plain(es0, s), ids@, Seq::<Tok>::empty());
    }
    while k < end
        invariant
            s == src@,
            ts == toks@.subrange(first as int, end as int),
            first <= k <= end <= toks@.len(),
            forall|q: int| 0 <= q < toks@.len() ==> tok_end(#[trigger] toks@[q]) <= src@.len(),
            es0.len() + (end - first) < NONE,
            toks_text(s, ts).len() <= u32::MAX,
            sound(b.elems@, b.lists@, s),
            grows(es0, cm0, b.elems@, b.lists@),
            b.elems@.len() == es0.len() + (k - first),
            b.lists@.len() == b.elems@.len(),
            forall|y: int| 0 <= y < es0.len() ==> #[trigger] b.elems@[y] == es0[y],
            forall|y: int| es0.len() <= y < b.elems@.len() ==> #[trigger] b.lists@[y] == Seq::<u32>::empty(),
            forall|y: int| 0 <= y < es0.len() ==> #[trigger] b.lists@[y] == cm0[y],
            ids@.len() == k - first,
            forall|m: int| 0 <= m < ids@.len() ==> #[trigger] ids@[m] == es0.len() + m,
            forall|m: int| 0 <= m < ids@.len() ==> #[trigger] b.elems@[es0.len() + m] == token_elem(toks@[first + m]),
            ks_text(plain(b.elems@, s), ids@) == toks_text(s, toks@.subrange(first as int, k as int)),
            len as nat == toks_text(s, toks@.subrange(first as int, k as int)).len(),
            kind_counts(b.elems@, b.elems@.len() as int) == (kind_counts(es0, es0.len() as int).0,
                kind_counts(es0, es0.len() as int).1 + (k - first) as nat),
        decreases end - k,
    {
        let t = toks[k];
        let e = Elem { kind: t.kind, is_token: true, start: t.start, len: t.len, first_child: NONE, next_sibling: NONE, over: NONE };
        let ghost es1 = b.elems@;
        let ghost cm1 = b.lists@;
        let id = b.elems.len() as u32;
        b.elems.push(e);
        b.lists = Ghost(cm1.push(Seq::empty()));
        proof {
            assert(tok_end(toks@[k as int]) <= s.len());
            lemma_links_push_token(es1, cm1, e);
            lemma_kind_counts_push(es1, e);
            let es2 = b.elems@;
            let cm2 = b.lists@;
            assert(grows(es1, cm1, es2, cm2)) by {
                assert forall|y: int| 0 <= y < es1.len() implies same_data(#[trigger] es1[y], es2[y]) && cm2[y] == cm1[y] by {
                    assert(es2[y] == es1[y]);
                }
            }
            lemma_sound_grow(es1, cm1, es2, cm2, s);
            assert forall|y: int| 0 <= y < es2.len() implies (#[trigger] es2[y]).over == NONE
                && (es2[y].is_token ==> es2[y].start + es2[y].len <= s.len())
                && (!es2[y].is_token ==> es2[y].len == elem_text(plain(es2, s), y).len()) by {
                if y < es1.len() {
                    assert(es2[y] == es1[y]);
                    assert(elem_text(plain(es2, s), y) == elem_text(plain(es1, s), y));
                }
            }
            assert(sound(es2, cm2, s));
            assert(grows(es0, cm0, es2, cm2)) by {
                assert forall|y: int| 0 <= y < es0.len() implies same_data(#[trigger] es0[y], es2[y]) && cm2[y] == cm0[y] by {
                    assert(es2[y] == es1[y]);
                    assert(cm2[y] == cm1[y]);
                }
            }
            let ids2 = ids@.push(id);
            let ts2 = toks@.subrange(first as int, k + 1);
            assert(ts2.drop_last() =~= toks@.subrange(first as int, k as int));
            assert forall|m: int| 0 <= m < ids2.len() implies elem_text(plain(es2, s), #[trigger] ids2[m] as int)
                == tok_bytes(s, ts2[m]) by {
                assert(ids2[m] == es0.len() + m);
                if m < ids@.len() {
                    assert(es2[es0.len() + m] == token_elem(toks@[first + m]));
                } else {
                    assert(es2[es0.len() + m] == e);
                }
                assert(ts2[m] == toks@[first + m]);
            }
            lemma_ks_toks(plain(es2, s), ids2, ts2);
            assert(tok_bytes(s, t).len() == t.len);
        }
        ids.push(id);
        if t.start < start {
            start = t.start;
        }
        proof {
            assert(toks_text(s, toks@.subrange(first as int, k + 1)).len() <= toks_text(s, ts).len()) by {
                lemma_toks_text_prefix_len(s, ts, k + 1 - first);
                assert(ts.subrange(0, k + 1 - first) =~= toks@.subrange(first as int, k + 1));
            }
        }
        len = len + t.len;
        k = k + 1;
    }
    proof {
        assert(toks@.subrange(first as int, k as int) =~= ts);
        lemma_links_len(b.elems@, b.lists@);
        assert forall|m: int| 0 <= m < ids@.len() implies #[trigger] b.elems@[ids@[m] as int] == token_elem(toks@[first + m]) by {
            assert(b.elems@[es0.len() + m] == token_elem(toks@[first + m]));
        }
        lemma_ks_tokens_tokens(b.elems@, ids@);
        assert forall|x: u32| #[trigger] unlisted(cm0, x) implies unlisted(b.lists@, x) by {
            assert forall|id: int, q: int| 0 <= id < b.lists@.len() && 0 <= q < b.lists@[id].len() implies #[trigger] b.lists@[id][q] != x by {
                if id < es0.len() {
                    assert(b.lists@[id] == cm0[id]);
                }
            }
        }
        assert forall|m: int| 0 <= m < ids@.len() implies b.elems@[#[trigger] ids@[m] as int].next_sibling == NONE
            && unlisted(b.lists@, ids@[m]) by {
            assert(b.elems@[es0.len() + m] == token_elem(toks@[first + m]));
            reveal(links);
            assert forall|id: int, q: int| 0 <= id < b.lists@.len() && 0 <= q < b.lists@[id].len() implies #[trigger] b.lists@[id][q] != ids@[m] by {
                if id < es0.len() {
                    assert(b.lists@[id][q] < id);
                }
            }
        }
    }
    (ids, start, len)
}

/// A list of tokens holds itself as its tokens.
proof fn lemma_ks_tokens_tokens(es: Seq<Elem>, ks: Seq<u32>)
    requires
        forall|k: int| 0 <= k < ks.len() ==> (#[trigger] ks[k]) < es.len() && es[ks[k] as int].is_token,
    ensures
        ks_tokens(es, ks) == ks,
    decreases ks.len(),
{
    if ks.len() > 0 {
        assert forall|k: int| 0 <= k < ks.drop_last().len() implies (#[trigger] ks.drop_last()[k]) < es.len()
            && es[ks.drop_last()[k] as int].is_token by {
            assert(ks.drop_last()[k] == ks[k]);
        }
        lemma_ks_tokens_tokens(es, ks.drop_last());
        let y = ks[ks.len() - 1];
        assert(y < es.len() && es[y as int].is_token);
        assert(elem_tokens(es, y as int) == seq![y]);
        assert(ks.drop_last().push(y) =~= ks);
    }
}

/// A prefix of a token run reads no more than the whole run.
proof fn lemma_toks_text_prefix_len(s: Seq<u8>, ts: Seq<Tok>, i: int)
    requires
        0 <= i <= ts.len(),
    ensures
        toks_text(s, ts.subrange(0, i)).len() <= toks_text(s, ts).len(),
    decreases ts.len() - i,
{
    if i < ts.len() {
        lemma_toks_text_prefix_len(s, ts, i + 1);
        assert(ts.subrange(0, i + 1).drop_last() =~= ts.subrange(0, i));
    } else {
        assert(ts.subrange(0, i) =~= ts);
    }
}


/// Growing an arena keeps the text of every list of older elements.
proof fn lemma_ks_frame(t1: ArenaView, t2: ArenaView, cm1: Seq<Seq<u32>>, cm2: Seq<Seq<u32>>, ks: Seq<u32>)
    requires
        links(t1.es, cm1),
        links(t2.es, cm2),
        grows(t1.es, cm1, t2.es, cm2),
        t1.src == t2.src,
        t1.ovs == t2.ovs,
        forall|k: int| 0 <= k < ks.len() ==> (#[trigger] ks[k]) < t1.es.len(),
    ensures
        ks_text(t2, ks) == ks_text(t1, ks),
        ks_tokens(t2.es, ks) == ks_tokens(t1.es, ks),
    decreases ks.len(),
{
    if ks.len() > 0 {
        assert forall|k: int| 0 <= k < ks.drop_last().len() implies (#[trigger] ks.drop_last()[k]) < t1.es.len() by {
            assert(ks.drop_last()[k] == ks[k]);
        }
        lemma_ks_frame(t1, t2, cm1, cm2, ks.drop_last());
        assert(ks[ks.len() - 1] < t1.es.len());
        lemma_frame(t1, t2, cm1, cm2, ks.last() as int);
    }
}

/// Growing an arena keeps the text of every stack of older elements.
proof fn lemma_stack_frame(t1: ArenaView, t2: ArenaView, cm1: Seq<Seq<u32>>, cm2: Seq<Seq<u32>>, s: Seq<u32>)
    requires
        links(t1.es, cm1),
        links(t2.es, cm2),
        grows(t1.es, cm1, t2.es, cm2),
        t1.src == t2.src,
        t1.ovs == t2.ovs,
        forall|k: int| 0 <= k < s.len() ==> (#[trigger] s[k]) < t1.es.len(),
    ensures
        stack_text(t2, s) == stack_text(t1, s),
        stack_tokens(t2.es, s) == stack_tokens(t1.es, s),
    decreases s.len(),
{
    if s.len() > 0 {
        assert forall|k: int| 0 <= k < s.drop_last().len() implies (#[trigger] s.drop_last()[k]) < t1.es.len() by {
            assert(s.drop_last()[k] == s[k]);
        }
        lemma_stack_frame(t1, t2, cm1, cm2, s.drop_last());
        assert(s[s.len() - 1] < t1.es.len());
        lemma_frame(t1, t2, cm1, cm2, s.last() as int);
    }
}

/// The element ids of a stack of finished nodes, each paired with its
/// parent's line.
spec fn ids(p: Seq<(u32, u32)>) -> Seq<u32> {
    Seq::new(p.len(), |i: int| p[i].1)
}

/// Whether element `x` is free to be adopted: in the arena, linked to no
/// sibling and in no list.
spec fn loose(es: Seq<Elem>, cm: Seq<Seq<u32>>, x: u32) -> bool {
    &&& x < es.len()
    &&& es[x as int].next_sibling == NONE
    &&& unlisted(cm, x)
}

/// Whether `l` holds distinct elements, each free to be adopted.
spec fn all_loose(es: Seq<Elem>, cm: Seq<Seq<u32>>, l: Seq<u32>) -> bool {
    &&& l.no_duplicates()
    &&& forall|k: int| 0 <= k < l.len() ==> loose(es, cm, #[trigger] l[k])
}

/// Whether a stack of finished nodes holds distinct nodes, each free to be
/// adopted.
spec fn pend_ok(es: Seq<Elem>, cm: Seq<Seq<u32>>, p: Seq<(u32, u32)>) -> bool {
    &&& ids(p).no_duplicates()
    &&& forall|k: int| 0 <= k < p.len() ==> loose(es, cm, #[trigger] p[k].1) && !es[p[k].1 as int].is_token
}

/// Whether no member of `l` is on the stack `p`.
spec fn apart(l: Seq<u32>, p: Seq<(u32, u32)>) -> bool {
    forall|m: int, q: int| 0 <= m < l.len() && 0 <= q < p.len() ==> #[trigger] l[m] != #[trigger] p[q].1
}

/// Adopt finished nodes from the top of `pending` into `children` while
/// their parent is line `j` (or, with `all`, every one), keeping the least
/// start and the total length.
fn gather(
    b: &Builder,
    pending: &mut Vec<(u32, u32)>,
    children: &mut Vec<u32>,
    start: &mut u32,
    len: &mut u32,
    all: bool,
    j: u32,
    Ghost(src): Ghost<Seq<u8>>,
)
    requires
        sound(b.elems@, b.lists@, src),
        pend_ok(b.elems@, b.lists@, old(pending)@),
        all_loose(b.elems@, b.lists@, old(children)@),
        apart(old(children)@, old(pending)@),
        *old(len) as nat == ks_text(plain(b.elems@, src), old(children)@).len(),
        ks_text(plain(b.elems@, src), old(children)@).len() + stack_text(plain(b.elems@, src), ids(old(pending)@)).len()
            <= u32::MAX,
    ensures
        final(pending)@.len() <= old(pending)@.len(),
        final(pending)@ == old(pending)@.take(final(pending)@.len() as int),
        pend_ok(b.elems@, b.lists@, final(pending)@),
        all_loose(b.elems@, b.lists@, final(children)@),
        apart(final(children)@, final(pending)@),
        ks_text(plain(b.elems@, src), final(children)@) + stack_text(plain(b.elems@, src), ids(final(pending)@))
            == ks_text(plain(b.elems@, src), old(children)@) + stack_text(plain(b.elems@, src), ids(old(pending)@)),
        ks_tokens(b.elems@, final(children)@) + stack_tokens(b.elems@, ids(final(pending)@)) == ks_tokens(b.elems@, old(children)@)
            + stack_tokens(b.elems@, ids(old(pending)@)),
        *final(len) as nat == ks_text(plain(b.elems@, src), final(children)@).len(),
        all ==> final(pending)@.len() == 0,
{
    let ghost t = plain(b.elems@, src);
    let ghost c0 = children@;
    let ghost p0 = pending@;
    proof {
        assert(p0.take(p0.len() as int) =~= p0);
    }
    while pending.len() > 0 && (all || pending[pending.len() - 1].0 == j)
        invariant
            t == plain(b.elems@, src),
            sound(b.elems@, b.lists@, src),
            pend_ok(b.elems@, b.lists@, pending@),
            pending@.len() <= p0.len(),
            pending@ == p0.take(pending@.len() as int),
            all_loose(b.elems@, b.lists@, children@),
            apart(children@, pending@),
            ks_text(t, children@) + stack_text(t, ids(pending@)) == ks_text(t, c0) + stack_text(t, ids(p0)),
            ks_tokens(t.es, children@) + stack_tokens(t.es, ids(pending@)) == ks_tokens(t.es, c0) + stack_tokens(t.es, ids(p0)),
            *len as nat == ks_text(t, children@).len(),
            ks_text(t, c0).len() + stack_text(t, ids(p0)).len() <= u32::MAX,
        decreases pending@.len(),
    {
        let ghost before = pending@;
        let ghost kids0 = children@;
        let (_, c) = pending.pop().unwrap();
        let e = b.elems[c as usize];
        proof {
            let q = before.len() - 1;
            assert(pending@ == before.drop_last());
            assert(c == before[q].1);
            assert(ids(before)[q] == c);
            assert(ids(before).drop_last() =~= ids(pending@));
            assert(loose(b.elems@, b.lists@, before[q].1) && !b.elems@[before[q].1 as int].is_token);
            assert(e.len == elem_text(t, c as int).len());
            assert(stack_text(t, ids(before)) == elem_text(t, c as int) + stack_text(t, ids(pending@)));
            vstd::seq_lib::lemma_concat_associative(ks_text(t, kids0), elem_text(t, c as int), stack_text(t, ids(pending@)));
            let kids1 = kids0.push(c);
            assert(kids1.drop_last() =~= kids0);
            assert(ks_text(t, kids1) == ks_text(t, kids0) + elem_text(t, c as int));
            assert(stack_tokens(t.es, ids(before)) == elem_tokens(t.es, c as int) + stack_tokens(t.es, ids(pending@)));
            vstd::seq_lib::lemma_concat_associative(ks_tokens(t.es, kids0), elem_tokens(t.es, c as int), stack_tokens(t.es, ids(pending@)));
            assert(ks_tokens(t.es, kids1) == ks_tokens(t.es, kids0) + elem_tokens(t.es, c as int));
            assert forall|k: int| 0 <= k < pending@.len() implies pending@[k] == p0.take(pending@.len() as int)[k] by {
                assert(pending@[k] == before[k]);
                assert(before[k] == p0.take(before.len() as int)[k]);
                assert(p0.take(before.len() as int)[k] == p0[k]);
            }
            assert(pending@ =~= p0.take(pending@.len() as int));
            assert forall|m: int, n: int| 0 <= m < pending@.len() && 0 <= n < pending@.len() && m != n implies ids(pending@)[m]
                != ids(pending@)[n] by {
                assert(ids(pending@)[m] == ids(before)[m]);
                assert(ids(pending@)[n] == ids(before)[n]);
            }
            assert forall|k: int| 0 <= k < pending@.len() implies loose(b.elems@, b.lists@, #[trigger] pending@[k].1)
                && !b.elems@[pending@[k].1 as int].is_token by {
                assert(pending@[k] == before[k]);
            }
            assert forall|m: int, n: int| 0 <= m < kids1.len() && 0 <= n < kids1.len() && m != n implies kids1[m] != kids1[n] by {
                if m < kids0.len() && n < kids0.len() {
                } else if m < kids0.len() {
                    assert(kids0[m] != before[q].1);
                } else if n < kids0.len() {
                    assert(kids0[n] != before[q].1);
                }
            }
            assert forall|k: int| 0 <= k < kids1.len() implies loose(b.elems@, b.lists@, #[trigger] kids1[k]) by {
                if k < kids0.len() {
                    assert(kids1[k] == kids0[k]);
                }
            }
            assert forall|m: int, n: int| 0 <= m < kids1.len() && 0 <= n < pending@.len() implies #[trigger] kids1[m]
                != #[trigger] pending@[n].1 by {
                assert(pending@[n] == before[n]);
                if m < kids0.len() {
                    assert(kids1[m] == kids0[m]);
                    assert(kids0[m] != before[n].1);
                } else {
                    assert(ids(before)[q] != ids(before)[n]);
                }
            }
        }
        if e.start < *start {
            *start = e.start;
        }
        *len = *len + e.len;
        children.push(c);
    }
}

/// Thread `l` into a sibling list: each member points at the next; the
/// last keeps its link.
fn link_siblings(b: &mut Builder, l: &Vec<u32>, Ghost(src): Ghost<Seq<u8>>)
    requires
        sound(old(b).elems@, old(b).lists@, src),
        all_loose(old(b).elems@, old(b).lists@, l@),
    ensures
        sound(final(b).elems@, final(b).lists@, src),
        final(b).lists@ == old(b).lists@,
        grows(old(b).elems@, old(b).lists@, final(b).elems@, final(b).lists@),
        final(b).elems@.len() == old(b).elems@.len(),
        forall|y: int| 0 <= y < old(b).elems@.len() && !l@.contains(y as u32) ==> #[trigger] final(b).elems@[y] == old(b).elems@[y],
        forall|k: int| #![trigger final(b).elems@[l@[k] as int].next_sibling] 0 <= k < l@.len() ==> final(b).elems@[l@[k] as int].next_sibling
            == (if k + 1 < l@.len() { l@[k + 1] } else { NONE }),
{
    let ghost es0 = b.elems@;
    let ghost cm0 = b.lists@;
    let mut i: usize = 0;
    proof {
        assert(l@.take(0) =~= Seq::<u32>::empty());
    }
    while l.len() > 0 && i < l.len() - 1
        invariant
            sound(b.elems@, b.lists@, src),
            b.lists@ == cm0,
            b.elems@.len() == es0.len(),
            all_loose(es0, cm0, l@),
            l@.len() > 0 ==> i < l@.len(),
            l@.len() == 0 ==> i == 0,
            forall|y: int| 0 <= y < es0.len() ==> same_data(#[trigger] es0[y], b.elems@[y]),
            forall|k: int| 0 <= k < i ==> b.elems@[#[trigger] l@[k] as int].next_sibling == l@[k + 1],
            forall|y: int| 0 <= y < es0.len() && !l@.take(i as int).contains(y as u32) ==> #[trigger] b.elems@[y] == es0[y],
        decreases l@.len() - i,
    {
        let x = l[i];
        let v = l[i + 1];
        let ghost es1 = b.elems@;
        proof {
            assert(loose(es0, cm0, l@[i as int]));
        }
        let mut e = b.elems[x as usize];
        e.next_sibling = v;
        b.elems.set(x as usize, e);
        proof {
            lemma_links_relink(es1, cm0, x, v);
            let es2 = b.elems@;
            assert(es2 == es1.update(x as int, Elem { next_sibling: v, ..es1[x as int] }));
            assert(grows(es1, cm0, es2, cm0)) by {
                assert forall|y: int| 0 <= y < es1.len() implies same_data(#[trigger] es1[y], es2[y]) && cm0[y] == cm0[y] by {
                }
            }
            lemma_sound_grow(es1, cm0, es2, cm0, src);
            assert forall|y: int| 0 <= y < es2.len() implies (#[trigger] es2[y]).over == NONE
                && (es2[y].is_token ==> es2[y].start + es2[y].len <= src.len())
                && (!es2[y].is_token ==> es2[y].len == elem_text(plain(es2, src), y).len()) by {
                assert(same_data(es1[y], es2[y]));
                assert(elem_text(plain(es2, src), y) == elem_text(plain(es1, src), y));
            }
            assert forall|y: int| 0 <= y < es0.len() implies same_data(#[trigger] es0[y], es2[y]) by {
                assert(same_data(es0[y], es1[y]));
                assert(same_data(es1[y], es2[y]));
            }
            assert forall|k: int| 0 <= k < i + 1 implies es2[#[trigger] l@[k] as int].next_sibling == l@[k + 1] by {
                if k < i {
                    assert(l@[k] != l@[i as int]);
                    assert(es2[l@[k] as int] == es1[l@[k] as int]);
                }
            }
            assert forall|y: int| 0 <= y < es0.len() && !l@.take(i + 1).contains(y as u32) implies #[trigger] es2[y] == es0[y] by {
                assert(l@.take(i + 1)[i as int] == x);
                if y == x as int {
                    assert(l@.take(i + 1).contains(y as u32));
                }
                assert forall|k: int| 0 <= k < i implies l@.take(i as int)[k] != y as u32 by {
                    assert(l@.take(i as int)[k] == l@.take(i + 1)[k]);
                }
                assert(!l@.take(i as int).contains(y as u32));
            }
        }
        i = i + 1;
    }
    proof {
        let es2 = b.elems@;
        assert(grows(es0, cm0, es2, cm0));
        assert forall|y: int| 0 <= y < es0.len() && !l@.contains(y as u32) implies #[trigger] es2[y] == es0[y] by {
            if l@.take(i as int).contains(y as u32) {
                let k = choose|k: int| 0 <= k < l@.take(i as int).len() && l@.take(i as int)[k] == y as u32;
                assert(l@[k] == y as u32);
            }
        }
        assert forall|k: int| #![trigger es2[l@[k] as int].next_sibling] 0 <= k < l@.len() implies es2[l@[k] as int].next_sibling
            == (if k + 1 < l@.len() { l@[k + 1] } else { NONE }) by {
            if k + 1 == l@.len() {
                assert(loose(es0, cm0, l@[k]));
                assert forall|m: int| 0 <= m < i implies l@.take(i as int)[m] != l@[k] by {
                    assert(l@.take(i as int)[m] == l@[m]);
                }
                assert(!l@.take(i as int).contains(l@[k]));
                assert(es2[l@[k] as int] == es0[l@[k] as int]);
            }
        }
    }
}


/// Close a node over the children `l`: thread them, then append the node.
fn finish_node(b: &mut Builder, kind: Kind, start: u32, len: u32, l: &Vec<u32>, Ghost(src): Ghost<Seq<u8>>) -> (id: u32)
    requires
        sound(old(b).elems@, old(b).lists@, src),
        old(b).elems@.len() < NONE,
        all_loose(old(b).elems@, old(b).lists@, l@),
        len as nat == ks_text(plain(old(b).elems@, src), l@).len(),
    ensures
        sound(final(b).elems@, final(b).lists@, src),
        id == old(b).elems@.len(),
        final(b).elems@.len() == old(b).elems@.len() + 1,
        final(b).elems@[id as int].kind == kind,
        !final(b).elems@[id as int].is_token,
        final(b).elems@[id as int].next_sibling == NONE,
        final(b).lists@ == old(b).lists@.push(l@),
        grows(old(b).elems@, old(b).lists@, final(b).elems@, final(b).lists@),
        forall|y: int| 0 <= y < old(b).elems@.len() && !l@.contains(y as u32) ==> #[trigger] final(b).elems@[y] == old(b).elems@[y],
        forall|x: u32| #[trigger] unlisted(old(b).lists@, x) && !l@.contains(x) ==> unlisted(final(b).lists@, x),
        unlisted(final(b).lists@, id),
        elem_text(plain(final(b).elems@, src), id as int) == ks_text(plain(old(b).elems@, src), l@),
        elem_tokens(final(b).elems@, id as int) == ks_tokens(old(b).elems@, l@),
        kind_counts(final(b).elems@, final(b).elems@.len() as int) == (kind_counts(old(b).elems@, old(b).elems@.len() as int).0 + 1,
            kind_counts(old(b).elems@, old(b).elems@.len() as int).1),
{
    let ghost es0 = b.elems@;
    let ghost cm0 = b.lists@;
    link_siblings(b, l, Ghost(src));
    let ghost es1 = b.elems@;
    let first = if l.len() == 0 { NONE } else { l[0] };
    let e = Elem { kind, is_token: false, start, len, first_child: first, next_sibling: NONE, over: NONE };
    let id = b.elems.len() as u32;
    b.elems.push(e);
    b.lists = Ghost(cm0.push(l@));
    proof {
        let es2 = b.elems@;
        let cm2 = b.lists@;
        lemma_links_len(es0, cm0);
        assert forall|k: int| 0 <= k < l@.len() implies (#[trigger] l@[k]) < es1.len() by {
            assert(loose(es0, cm0, l@[k]));
        }
        lemma_links_push_node(es1, cm0, e, l@);
        assert(grows(es1, cm0, es2, cm2)) by {
            assert forall|y: int| 0 <= y < es1.len() implies same_data(#[trigger] es1[y], es2[y]) && cm2[y] == cm0[y] by {
                assert(es2[y] == es1[y]);
            }
        }
        assert(grows(es0, cm0, es2, cm2)) by {
            assert forall|y: int| 0 <= y < es0.len() implies same_data(#[trigger] es0[y], es2[y]) && cm2[y] == cm0[y] by {
                assert(same_data(es0[y], es1[y]));
                assert(es2[y] == es1[y]);
            }
        }
        lemma_sound_grow(es0, cm0, es2, cm2, src);
        let t0 = plain(es0, src);
        let t2 = plain(es2, src);
        lemma_links_shape(es2, cm2);
        lemma_node_kids(t2, id as int);
        lemma_links_kids(es2, cm2, id as int);
        lemma_ks_frame(t0, t2, cm0, cm2, l@);
        assert(elem_text(t2, id as int) == ks_text(t0, l@));
        assert forall|y: int| 0 <= y < es2.len() implies (#[trigger] es2[y]).over == NONE
            && (es2[y].is_token ==> es2[y].start + es2[y].len <= src.len())
            && (!es2[y].is_token ==> es2[y].len == elem_text(plain(es2, src), y).len()) by {
            if y < es0.len() {
                assert(same_data(es0[y], es2[y]));
                assert(elem_text(plain(es2, src), y) == elem_text(plain(es0, src), y));
            }
        }
        assert forall|y: int| 0 <= y < es0.len() && !l@.contains(y as u32) implies #[trigger] es2[y] == es0[y] by {
            assert(es2[y] == es1[y]);
        }
        reveal(links);
        assert forall|x: u32| #[trigger] unlisted(cm0, x) && !l@.contains(x) implies unlisted(cm2, x) by {
            assert forall|z: int, q: int| 0 <= z < cm2.len() && 0 <= q < cm2[z].len() implies #[trigger] cm2[z][q] != x by {
                if z < cm0.len() {
                    assert(cm2[z] == cm0[z]);
                } else {
                    assert(cm2[z] == l@);
                    assert(l@.contains(l@[q]));
                }
            }
        }
        assert forall|z: int, q: int| 0 <= z < cm2.len() && 0 <= q < cm2[z].len() implies #[trigger] cm2[z][q] != id by {
            assert(cm2[z][q] < z);
        }
        lemma_kind_counts_same(es0, es1, es0.len() as int);
        lemma_kind_counts_push(es1, e);
    }
    id
}

/// Build line `j`'s node: its tokens, then the finished lines on top of
/// `pending` whose parent is `j`; the node goes onto `pending`.
#[verifier::rlimit(40)]
fn build_line(b: &mut Builder, src: &[u8], lexed: &Lexed, parents: &[u32], j: usize, pending: &mut Vec<(u32, u32)>)
    requires
        sound(old(b).elems@, old(b).lists@, src@),
        fits(src@, lexed.toks@, lexed.lines@),
        j < lexed.lines@.len(),
        j < parents@.len(),
        j < NONE,
        pend_ok(old(b).elems@, old(b).lists@, old(pending)@),
        old(b).elems@.len() + (lexed.lines@[j as int].end - lexed.lines@[j as int].first) + 1 < NONE,
        line_text(src@, lexed.toks@, lexed.lines@[j as int]).len() + stack_text(plain(old(b).elems@, src@), ids(old(pending)@)).len()
            <= u32::MAX,
    ensures
        sound(final(b).elems@, final(b).lists@, src@),
        final(b).elems@.len() == old(b).elems@.len() + (lexed.lines@[j as int].end - lexed.lines@[j as int].first) + 1,
        pend_ok(final(b).elems@, final(b).lists@, final(pending)@),
        stack_text(plain(final(b).elems@, src@), ids(final(pending)@)) == line_text(src@, lexed.toks@, lexed.lines@[j as int])
            + stack_text(plain(old(b).elems@, src@), ids(old(pending)@)),
        grows(old(b).elems@, old(b).lists@, final(b).elems@, final(b).lists@),
        stack_tokens(final(b).elems@, ids(final(pending)@)) == fresh(old(b).elems@.len() as int,
            lexed.lines@[j as int].end - lexed.lines@[j as int].first) + stack_tokens(old(b).elems@, ids(old(pending)@)),
        forall|m: int| 0 <= m < lexed.lines@[j as int].end - lexed.lines@[j as int].first ==> tok_of(
            #[trigger] final(b).elems@[old(b).elems@.len() + m]) == lexed.toks@[lexed.lines@[j as int].first + m],
        kind_counts(final(b).elems@, final(b).elems@.len() as int) == (kind_counts(old(b).elems@, old(b).elems@.len() as int).0 + 1,
            kind_counts(old(b).elems@, old(b).elems@.len() as int).1 + (lexed.lines@[j as int].end - lexed.lines@[j as int].first) as nat),
{
    let line = lexed.lines[j];
    let ghost s = src@;
    let ghost es0 = b.elems@;
    let ghost cm0 = b.lists@;
    let ghost p0 = pending@;
    proof {
        assert(line.first <= line.end && line.end <= lexed.toks@.len());
        lemma_links_len(es0, cm0);
    }
    let (mut children, mut start, mut len) = push_line_tokens(b, src, &lexed.toks, line.first as usize, line.end as usize);
    let ghost es1 = b.elems@;
    let ghost cm1 = b.lists@;
    let ghost toks_ids = children@;
    proof {
        let t0 = plain(es0, s);
        let t1 = plain(es1, s);
        assert forall|k: int| 0 <= k < p0.len() implies loose(es1, cm1, #[trigger] p0[k].1) && !es1[p0[k].1 as int].is_token by {
            assert(loose(es0, cm0, p0[k].1) && !es0[p0[k].1 as int].is_token);
            assert(es1[p0[k].1 as int] == es0[p0[k].1 as int]);
        }
        assert(all_loose(es1, cm1, toks_ids)) by {
            assert forall|m: int, n: int| 0 <= m < toks_ids.len() && 0 <= n < toks_ids.len() && m != n implies toks_ids[m] != toks_ids[n] by {
                assert(toks_ids[m] == es0.len() + m);
                assert(toks_ids[n] == es0.len() + n);
            }
        }
        assert forall|m: int, q: int| 0 <= m < toks_ids.len() && 0 <= q < p0.len() implies #[trigger] toks_ids[m] != #[trigger] p0[q].1 by {
            assert(toks_ids[m] == es0.len() + m);
            assert(loose(es0, cm0, p0[q].1));
        }
        assert forall|k: int| 0 <= k < ids(p0).len() implies (#[trigger] ids(p0)[k]) < es0.len() by {
            assert(loose(es0, cm0, p0[k].1));
        }
        lemma_stack_frame(t0, t1, cm0, cm1, ids(p0));
        assert(ks_text(t1, toks_ids) == line_text(s, lexed.toks@, line));
    }
    gather(b, pending, &mut children, &mut start, &mut len, false, j as u32, Ghost(s));
    let ghost p1 = pending@;
    let ghost kids = children@;
    let id = finish_node(b, Kind::Line, if start == NONE { 0 } else { start }, len, &children, Ghost(s));
    let parent = parents[j];
    pending.push((parent, id));
    proof {
        let es3 = b.elems@;
        let cm3 = b.lists@;
        let t1 = plain(es1, s);
        let t3 = plain(es3, s);
        let p2 = pending@;
        assert(p1.len() <= p0.len());
        assert forall|k: int| 0 <= k < p1.len() implies (#[trigger] ids(p1)[k]) < es1.len() && !kids.contains(ids(p1)[k]) by {
            assert(loose(es1, cm1, p1[k].1));
            if kids.contains(p1[k].1) {
                let m = choose|m: int| 0 <= m < kids.len() && kids[m] == p1[k].1;
                assert(kids[m] != p1[k].1);
            }
        }
        assert forall|k: int| 0 <= k < p2.len() implies loose(es3, cm3, #[trigger] p2[k].1) && !es3[p2[k].1 as int].is_token by {
            if k < p1.len() {
                assert(p2[k] == p1[k]);
                assert(ids(p1)[k] == p1[k].1);
                assert(loose(es1, cm1, p1[k].1) && !es1[p1[k].1 as int].is_token);
                assert(es3[p1[k].1 as int] == es1[p1[k].1 as int]);
                assert(unlisted(cm1, p1[k].1));
            } else {
                assert(p2[k].1 == id);
            }
        }
        assert(ids(p2) =~= ids(p1).push(id));
        assert forall|m: int, n: int| 0 <= m < ids(p2).len() && 0 <= n < ids(p2).len() && m != n implies ids(p2)[m] != ids(p2)[n] by {
            if m < p1.len() && n < p1.len() {
                assert(ids(p2)[m] == ids(p1)[m]);
                assert(ids(p2)[n] == ids(p1)[n]);
            } else if m < p1.len() {
                assert(ids(p2)[m] == ids(p1)[m]);
            } else if n < p1.len() {
                assert(ids(p2)[n] == ids(p1)[n]);
            }
        }
        assert(ids(p2).drop_last() =~= ids(p1));
        assert(stack_text(t3, ids(p2)) == elem_text(t3, id as int) + stack_text(t3, ids(p1)));
        lemma_links_len(es1, cm1);
        lemma_stack_frame(t1, t3, cm1, cm3, ids(p1));
        vstd::seq_lib::lemma_concat_associative(line_text(s, lexed.toks@, line), stack_text(t1, ids(p0)), Seq::<u8>::empty());
        assert(toks_ids =~= fresh(es0.len() as int, line.end - line.first));
        assert(stack_tokens(es3, ids(p2)) == elem_tokens(es3, id as int) + stack_tokens(es3, ids(p1)));
        assert(stack_tokens(es3, ids(p2)) == toks_ids + stack_tokens(es0, ids(p0)));
        assert(grows(es0, cm0, es3, cm3)) by {
            assert forall|y: int| 0 <= y < es0.len() implies same_data(#[trigger] es0[y], es3[y]) && cm3[y] == cm0[y] by {
                assert(es1[y] == es0[y]);
                assert(same_data(es1[y], es3[y]));
            }
        }
        assert forall|m: int| 0 <= m < line.end - line.first implies tok_of(#[trigger] es3[es0.len() + m]) == lexed.toks@[line.first + m] by {
            assert(toks_ids[m] == es0.len() + m);
            assert(es1[toks_ids[m] as int] == token_elem(lexed.toks@[line.first + m]));
            assert(same_data(es1[es0.len() + m], es3[es0.len() + m]));
        }
    }
}

/// Token counts only fall as the first line moves on.
proof fn lemma_lines_tokens_mono(ls: Seq<LineSpan>, a: int, c: int, n: int)
    requires
        a <= c,
    ensures
        lines_tokens(ls, c, n) <= lines_tokens(ls, a, n),
    decreases c - a,
{
    if a < c {
        lemma_lines_tokens_mono(ls, a + 1, c, n);
    }
}

/// The text of later lines is no longer than that of earlier ones.
proof fn lemma_lines_text_mono(s: Seq<u8>, ts: Seq<Tok>, ls: Seq<LineSpan>, a: int, c: int, n: int)
    requires
        a <= c,
    ensures
        lines_text(s, ts, ls, c, n).len() <= lines_text(s, ts, ls, a, n).len(),
    decreases c - a,
{
    if a < c {
        lemma_lines_text_mono(s, ts, ls, a + 1, c, n);
    }
}

/// Whether `tree` is what building from the tokens `ts` and lines `ls` of
/// `s` gives: well formed, over one copy of `s`, reading no override, and
/// with its tokens, each once, reading in document order as the lines'
/// tokens do.
pub open spec fn built_from(tree: Tree, s: Seq<u8>, ts: Seq<Tok>, ls: Seq<LineSpan>) -> bool {
    &&& wf(tree)
    &&& tree.src@ == s
    &&& forall|id: int| 0 <= id < tree.elems@.len() ==> (#[trigger] tree.elems@[id]).over == NONE
    &&& tree_tokens(tree).no_duplicates()
    &&& toks_at(tree.elems@, tree_tokens(tree)) == lines_toks(ts, ls, 0, ls.len() as int)
}

/// Build the arena for a lexed input: for each line, from the last up, its
/// tokens and then its `Line` node over them and the lines nested under
/// it; the `Document` node last, over the lines nested under nothing.
/// `parents` is the nesting plan [`super::lex::nesting`] computes. The
/// tree's text is the lines' text in order, so for a lexed input it is the
/// input itself, and every node records the length of its text.
pub fn build(src: &[u8], lexed: &Lexed, parents: &[u32]) -> (tree: Tree)
    requires
        fits(src@, lexed.toks@, lexed.lines@),
        is_plan(lexed.lines@, parents@),
        lexed.lines@.len() + lines_tokens(lexed.lines@, 0, lexed.lines@.len() as int) < NONE,
        lines_text(src@, lexed.toks@, lexed.lines@, 0, lexed.lines@.len() as int).len() <= u32::MAX,
    ensures
        built_from(tree, src@, lexed.toks@, lexed.lines@),
        tree.root == tree.elems@.len() - 1,
        tree.elems@[tree.root as int].kind == Kind::Document,
        tree.overrides@.len() == 0,
        tree.src@ == src@,
        tree_text(tree) == lines_text(src@, lexed.toks@, lexed.lines@, 0, lexed.lines@.len() as int),
        forall|id: int| 0 <= id < tree.elems@.len() && !(#[trigger] tree.elems@[id]).is_token ==> tree.elems@[id].len
            == elem_text(view_of(tree), id).len(),
        kind_counts(tree.elems@, tree.elems@.len() as int) == (lexed.lines@.len() + 1, lines_tokens(lexed.lines@, 0,
            lexed.lines@.len() as int)),
        lexes(src@, lexed.toks@, lexed.lines@) ==> tree_text(tree) == src@,
{
    let n = lexed.lines.len();
    let ghost s = src@;
    let ghost ls = lexed.lines@;
    let ghost ts = lexed.toks@;
    let mut b = Builder { elems: Vec::new(), lists: Ghost(Seq::empty()) };
    let mut pending: Vec<(u32, u32)> = Vec::new();
    let mut j = n;
    proof {
        reveal(links);
        assert(ids(pending@) =~= Seq::<u32>::empty());
        assert(kind_counts(b.elems@, 0) == (0nat, 0nat));
    }
    while j > 0
        invariant
            j <= n == ls.len(),
            ls == lexed.lines@,
            ts == lexed.toks@,
            s == src@,
            parents@.len() == n,
            fits(s, ts, ls),
            n + lines_tokens(ls, 0, n as int) < NONE,
            lines_text(s, ts, ls, 0, n as int).len() <= u32::MAX,
            sound(b.elems@, b.lists@, s),
            pend_ok(b.elems@, b.lists@, pending@),
            stack_text(plain(b.elems@, s), ids(pending@)) == lines_text(s, ts, ls, j as int, n as int),
            b.elems@.len() == (n - j) + lines_tokens(ls, j as int, n as int),
            kind_counts(b.elems@, b.elems@.len() as int) == ((n - j) as nat, lines_tokens(ls, j as int, n as int)),
            stack_tokens(b.elems@, ids(pending@)).no_duplicates(),
            forall|k: int| 0 <= k < stack_tokens(b.elems@, ids(pending@)).len() ==> #[trigger] stack_tokens(b.elems@,
                ids(pending@))[k] < b.elems@.len(),
            toks_at(b.elems@, stack_tokens(b.elems@, ids(pending@))) == lines_toks(ts, ls, j as int, n as int),
        decreases j,
    {
        j = j - 1;
        proof {
            assert(ls[j as int].first <= ls[j as int].end);
            lemma_lines_tokens_mono(ls, 0, j as int, n as int);
            lemma_lines_text_mono(s, ts, ls, 0, j as int, n as int);
        }
        let ghost es0 = b.elems@;
        let ghost s0 = stack_tokens(b.elems@, ids(pending@));
        build_line(&mut b, src, lexed, parents, j, &mut pending);
        proof {
            let es3 = b.elems@;
            let l = ls[j as int];
            let cnt = l.end - l.first;
            let f = fresh(es0.len() as int, cnt);
            let s3 = stack_tokens(es3, ids(pending@));
            assert(s3 == f + s0);
            assert forall|p: int, q: int| 0 <= p < s3.len() && 0 <= q < s3.len() && p != q implies s3[p] != s3[q] by {
                if p < cnt && q < cnt {
                    assert(f[p] == es0.len() + p && f[q] == es0.len() + q);
                } else if p < cnt {
                    assert(s0[q - cnt] < es0.len());
                    assert(f[p] == es0.len() + p);
                } else if q < cnt {
                    assert(s0[p - cnt] < es0.len());
                    assert(f[q] == es0.len() + q);
                } else {
                    assert(s0[p - cnt] != s0[q - cnt]);
                }
            }
            assert forall|k: int| 0 <= k < s3.len() implies #[trigger] s3[k] < es3.len() by {
                if k < cnt {
                    assert(f[k] == es0.len() + k);
                } else {
                    assert(s0[k - cnt] < es0.len());
                }
            }
            assert(toks_at(es3, s3) =~= lines_toks(ts, ls, j as int, n as int)) by {
                assert(lines_toks(ts, ls, j as int, n as int) == ts.subrange(l.first as int, l.end as int) + lines_toks(ts, ls,
                    j + 1, n as int));
                assert forall|k: int| 0 <= k < s3.len() implies #[trigger] toks_at(es3, s3)[k] == lines_toks(ts, ls, j as int,
                    n as int)[k] by {
                    if k < cnt {
                        assert(f[k] == es0.len() + k);
                        assert(tok_of(es3[es0.len() + k]) == ts[l.first + k]);
                    } else {
                        assert(s0[k - cnt] < es0.len());
                        assert(same_data(es0[s0[k - cnt] as int], es3[s0[k - cnt] as int]));
                        assert(toks_at(es0, s0)[k - cnt] == tok_of(es0[s0[k - cnt] as int]));
                    }
                }
            }
        }
    }
    let mut children: Vec<u32> = Vec::new();
    let mut start: u32 = NONE;
    let mut len: u32 = 0;
    let ghost es0 = b.elems@;
    proof {
        assert(ks_text(plain(es0, s), children@) == Seq::<u8>::empty());
        assert(all_loose(b.elems@, b.lists@, children@));
    }
    let ghost sall = stack_tokens(es0, ids(pending@));
    gather(&b, &mut pending, &mut children, &mut start, &mut len, true, NONE, Ghost(s));
    proof {
        assert(stack_text(plain(es0, s), ids(pending@)) == Seq::<u8>::empty());
        assert(ks_text(plain(es0, s), children@) =~= lines_text(s, ts, ls, 0, n as int));
        assert(stack_tokens(es0, ids(pending@)) == Seq::<u32>::empty());
        assert(ks_tokens(es0, Seq::<u32>::empty()) == Seq::<u32>::empty());
        assert(ks_tokens(es0, children@) =~= sall);
    }
    let root = finish_node(&mut b, Kind::Document, 0, len, &children, Ghost(s));
    let ghost cm = b.lists@;
    let tree = Tree { elems: b.elems, overrides: Vec::new(), root, src: vstd::slice::slice_to_vec(src) };
    proof {
        let es = tree.elems@;
        assert(view_of(tree).ovs =~= Seq::<Seq<u8>>::empty());
        assert(view_of(tree) == plain(es, s));
        lemma_links_shape(es, cm);
        if lexes(s, ts, ls) {
            lemma_lines_cover(s, ts, ls);
        }
        assert(tree_tokens(tree) == sall);
        assert(toks_at(es, sall) =~= toks_at(es0, sall)) by {
            assert forall|k: int| 0 <= k < sall.len() implies #[trigger] toks_at(es, sall)[k] == toks_at(es0, sall)[k] by {
                assert(sall[k] < es0.len());
                assert(same_data(es0[sall[k] as int], es[sall[k] as int]));
            }
        }
    }
    tree
}


// --- the edit check -----------------------------------------------------------------------

/// Lines `a..` of a partition hold the tokens from line `a`'s first on.
#[verifier::rlimit(40)]
pub(crate) proof fn lemma_lines_toks_range(ts: Seq<Tok>, ls: Seq<LineSpan>, a: int)
    requires
        lines_partition(ls, ts.len() as int),
        forall|j: int| 0 <= j < ls.len() ==> (#[trigger] ls[j]).end <= ts.len(),
        0 <= a < ls.len(),
    ensures
        lines_toks(ts, ls, a, ls.len() as int) == ts.subrange(ls[a].first as int, ts.len() as int),
    decreases ls.len() - a,
{
    let l = ls[a];
    let n = ts.len() as int;
    assert(l.first < l.end <= n);
    if a + 1 < ls.len() {
        lemma_lines_toks_range(ts, ls, a + 1);
        let m = ls[a + 1];
        assert(m.first == l.end);
        let rest = lines_toks(ts, ls, a + 1, ls.len() as int);
        assert(rest == ts.subrange(l.end as int, n));
        assert(lines_toks(ts, ls, a, ls.len() as int) == ts.subrange(l.first as int, l.end as int) + rest);
        assert(ts.subrange(l.first as int, n) =~= ts.subrange(l.first as int, l.end as int) + ts.subrange(l.end as int, n));
    } else {
        assert(l == ls.last());
        assert(l.end == n);
        assert(lines_toks(ts, ls, a + 1, ls.len() as int) =~= Seq::<Tok>::empty());
        assert(ts.subrange(l.first as int, l.end as int) + Seq::<Tok>::empty() =~= ts.subrange(l.first as int, l.end as int));
    }
}

/// Tokens that read the source read as the lexer's tokens they hold.
proof fn lemma_tokens_text_toks(t: ArenaView, ys: Seq<u32>)
    requires
        forall|k: int| 0 <= k < ys.len() ==> (#[trigger] ys[k]) < t.es.len() && t.es[ys[k] as int].over == NONE,
    ensures
        tokens_text(t, ys) == toks_text(t.src, toks_at(t.es, ys)),
    decreases ys.len(),
{
    if ys.len() > 0 {
        assert forall|k: int| 0 <= k < ys.drop_last().len() implies (#[trigger] ys.drop_last()[k]) < t.es.len()
            && t.es[ys.drop_last()[k] as int].over == NONE by {
            assert(ys.drop_last()[k] == ys[k]);
        }
        lemma_tokens_text_toks(t, ys.drop_last());
        assert(toks_at(t.es, ys).drop_last() =~= toks_at(t.es, ys.drop_last()));
        assert(ys[ys.len() - 1] < t.es.len() && t.es[ys[ys.len() - 1] as int].over == NONE);
    }
}

/// Editing a token that is not among `ys` changes nothing they read.
proof fn lemma_edited_absent(t: ArenaView, ys: Seq<u32>, x: u32, text: Seq<u8>)
    requires
        !ys.contains(x),
    ensures
        edited_text(t, ys, x, text) == tokens_text(t, ys),
    decreases ys.len(),
{
    if ys.len() > 0 {
        assert(!ys.drop_last().contains(x)) by {
            if ys.drop_last().contains(x) {
                let k = choose|k: int| 0 <= k < ys.drop_last().len() && ys.drop_last()[k] == x;
                assert(ys[k] == x);
            }
        }
        lemma_edited_absent(t, ys.drop_last(), x, text);
        assert(ys[ys.len() - 1] != x);
    }
}

/// Editing a token that occurs once, at `n`, splices `text` in its place.
proof fn lemma_edited_once(t: ArenaView, ys: Seq<u32>, n: int, text: Seq<u8>)
    requires
        0 <= n < ys.len(),
        ys.no_duplicates(),
    ensures
        edited_text(t, ys, ys[n], text) == tokens_text(t, ys.take(n)) + text + tokens_text(t, ys.skip(n + 1)),
    decreases ys.len(),
{
    let x = ys[n];
    let init = ys.drop_last();
    if n == ys.len() - 1 {
        assert(!init.contains(x)) by {
            if init.contains(x) {
                let k = choose|k: int| 0 <= k < init.len() && init[k] == x;
                assert(ys[k] == ys[n]);
            }
        }
        lemma_edited_absent(t, init, x, text);
        assert(ys.take(n) =~= init);
        assert(ys.skip(n + 1) =~= Seq::<u32>::empty());
        assert(tokens_text(t, init) + text + Seq::<u8>::empty() =~= tokens_text(t, init) + text);
    } else {
        assert(init.no_duplicates()) by {
            assert forall|p: int, q: int| 0 <= p < init.len() && 0 <= q < init.len() && p != q implies init[p] != init[q] by {
                assert(init[p] == ys[p] && init[q] == ys[q]);
            }
        }
        assert(init[n] == x);
        lemma_edited_once(t, init, n, text);
        let last = ys[ys.len() - 1];
        assert(last != x);
        assert(init.take(n) =~= ys.take(n));
        assert(ys.skip(n + 1).drop_last() =~= init.skip(n + 1));
        assert(ys.skip(n + 1).last() == last);
        vstd::seq_lib::lemma_concat_associative(tokens_text(t, ys.take(n)) + text, tokens_text(t, init.skip(n + 1)),
            token_text(t, last as int));
    }
}

/// The first `m` tokens of a tiling tile up to the end of the `m`-th.
proof fn lemma_tiles_take(ts: Seq<Tok>, n: int, m: int)
    requires
        tiles_to(ts, n),
        0 <= m <= ts.len(),
    ensures
        tiles_to(ts.take(m), if m == 0 { 0 } else { tok_end(ts[m - 1]) }),
{
    let p = ts.take(m);
    assert forall|k: int| 0 <= k < p.len() implies (#[trigger] p[k]).len >= 1 by {
        assert(p[k] == ts[k]);
    }
    assert forall|k: int| 0 < k < p.len() implies (#[trigger] p[k]).start == tok_end(p[k - 1]) by {
        assert(p[k] == ts[k] && p[k - 1] == ts[k - 1]);
    }
    if m > 0 {
        assert(p[0] == ts[0]);
        assert(p.last() == ts[m - 1]);
    }
}

/// The edit check on the arena. In a tree built from a lexed input, the
/// `n`-th token in document order reads as the lexer's `n`-th token, and
/// the tree with that token reading `text` reads as the input with `text`
/// over that token's range and every other byte unchanged.
pub proof fn lemma_edit_check(tree: Tree, s: Seq<u8>, ts: Seq<Tok>, ls: Seq<LineSpan>, n: int, text: Seq<u8>)
    requires
        built_from(tree, s, ts, ls),
        lexes(s, ts, ls),
        0 <= n < ts.len(),
    ensures
        n < tree_tokens(tree).len(),
        tok_of(tree.elems@[tree_tokens(tree)[n] as int]) == ts[n],
        edited_text(view_of(tree), tree_tokens(tree), tree_tokens(tree)[n], text) == s.take(ts[n].start as int) + text + s.skip(
            tok_end(ts[n])),
{
    let t = view_of(tree);
    let es = tree.elems@;
    let ys = tree_tokens(tree);
    lemma_lex_is_lossless(s, ts, ls);
    if ls.len() == 0 {
        assert(ts.len() == 0);
    }
    lemma_lines_toks_range(ts, ls, 0);
    assert(ts.subrange(0, ts.len() as int) =~= ts);
    assert(toks_at(es, ys) == ts);
    assert(ys.len() == ts.len());
    assert(toks_at(es, ys)[n] == tok_of(es[ys[n] as int]));
    lemma_tokens_are_tokens(es, tree.root as int);
    lemma_edited_once(t, ys, n, text);
    let front = ys.take(n);
    let back = ys.skip(n + 1);
    assert forall|k: int| 0 <= k < front.len() implies (#[trigger] front[k]) < t.es.len() && t.es[front[k] as int].over == NONE by {
        assert(front[k] == ys[k]);
    }
    assert forall|k: int| 0 <= k < back.len() implies (#[trigger] back[k]) < t.es.len() && t.es[back[k] as int].over == NONE by {
        assert(back[k] == ys[n + 1 + k]);
    }
    lemma_tokens_text_toks(t, front);
    lemma_tokens_text_toks(t, back);
    assert(toks_at(es, front) =~= ts.take(n)) by {
        assert forall|k: int| 0 <= k < n implies #[trigger] toks_at(es, front)[k] == ts.take(n)[k] by {
            assert(toks_at(es, ys)[k] == ts[k]);
        }
    }
    assert(toks_at(es, back) =~= ts.skip(n + 1)) by {
        assert forall|k: int| 0 <= k < back.len() implies #[trigger] toks_at(es, back)[k] == ts.skip(n + 1)[k] by {
            assert(toks_at(es, ys)[n + 1 + k] == ts[n + 1 + k]);
        }
    }
    lemma_tiles_splice(s, ts, n);
}

/// The tokens before token `n` of a tiling read as the bytes before it,
/// and those after it as the bytes after it.
pub(crate) proof fn lemma_tiles_splice(s: Seq<u8>, ts: Seq<Tok>, n: int)
    requires
        tiles_to(ts, s.len() as int),
        toks_text(s, ts) == s,
        forall|k: int| 0 <= k < ts.len() ==> tok_end(#[trigger] ts[k]) <= s.len(),
        0 <= n < ts.len(),
    ensures
        toks_text(s, ts.take(n)) == s.take(ts[n].start as int),
        toks_text(s, ts.skip(n + 1)) == s.skip(tok_end(ts[n])),
{
    let a = ts[n].start as int;
    let e = tok_end(ts[n]);
    assert(e <= s.len());
    lemma_tiles_take(ts, s.len() as int, n);
    if n > 0 {
        assert(ts[n].start == tok_end(ts[n - 1]));
    }
    lemma_tiles_text(s, ts.take(n), a);
    lemma_tiles_take(ts, s.len() as int, n + 1);
    lemma_tiles_text(s, ts.take(n + 1), e);
    assert(ts =~= ts.take(n + 1) + ts.skip(n + 1));
    super::lex::lemma_toks_text_append(s, ts.take(n + 1), ts.skip(n + 1));
    let rest = toks_text(s, ts.skip(n + 1));
    assert(s == s.take(e) + rest);
    assert(rest =~= s.skip(e)) by {
        assert forall|i: int| 0 <= i < rest.len() implies rest[i] == s.skip(e)[i] by {
            assert((s.take(e) + rest)[e + i] == rest[i]);
        }
    }
}

} // verus!
