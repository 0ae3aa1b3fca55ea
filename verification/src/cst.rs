//! Lossless concrete syntax trees.
//!
//! A tree here owns every byte of its input. Its text is the in-order
//! concatenation of its tokens' bytes, and [`Cst::serialize`] emits exactly
//! that text, so a parser keeps the round-trip property (`serialize(parse(x))
//! == x`) as soon as it puts every input byte into some token, in order.
use std::rc::Rc;
use vstd::prelude::*;

verus! {

/// A syntax kind, opaque to the tree: each format defines its own values.
#[derive(Clone, Copy, PartialEq, Eq, Structural, PartialOrd, Ord, Hash, Debug)]
pub struct SyntaxKind(pub u16);

impl SyntaxKind {
    /// The reserved code of [`SyntaxKind::verbatim`].
    pub const VERBATIM_CODE: u16 = 65535;

    /// Reserved for spans a grammar cannot model, preserved byte for byte.
    /// It is the one kind whose meaning is fixed across every format.
    pub fn verbatim() -> (k: SyntaxKind)
        ensures
            k.0 == u16::MAX,
    {
        SyntaxKind(Self::VERBATIM_CODE)
    }
}

/// A half-open byte range of the source.
#[derive(Clone, Copy, PartialEq, Eq, Structural, Debug)]
pub struct Span {
    /// First byte, inclusive.
    pub start: u32,
    /// One past the last byte.
    pub end: u32,
}

impl Span {
    /// Length in bytes; a reversed span has length zero rather than underflowing.
    pub fn len(&self) -> (r: u32)
        ensures
            r == (if self.end >= self.start { self.end - self.start } else { 0 }),
    {
        self.end.saturating_sub(self.start)
    }

    /// Whether the span covers no bytes.
    pub fn is_empty(&self) -> (r: bool)
        ensures
            r == (self.end <= self.start),
    {
        self.end <= self.start
    }
}

/// A leaf: a kind and the exact bytes it covers.
#[derive(Debug)]
pub struct GreenToken {
    kind: SyntaxKind,
    text: Vec<u8>,
}

impl GreenToken {
    /// The token's kind, in specifications.
    pub closed spec fn kind_of(self) -> SyntaxKind {
        self.kind
    }

    /// The token's bytes, in specifications.
    pub closed spec fn bytes(&self) -> Seq<u8> {
        self.text@
    }

    /// Build a token from its bytes.
    pub fn new(kind: SyntaxKind, text: &[u8]) -> (t: Self)
        ensures
            t.kind_of() == kind,
            t.bytes() == text@,
    {
        GreenToken { kind, text: vstd::slice::slice_to_vec(text) }
    }

    /// This token's kind.
    pub fn kind(&self) -> (k: SyntaxKind)
        ensures
            k == self.kind_of(),
    {
        self.kind
    }

    /// The exact bytes this token covers.
    pub fn text(&self) -> (t: &[u8])
        ensures
            t@ == self.bytes(),
    {
        self.text.as_slice()
    }
}

/// Either a nested node or a token.
#[derive(Debug)]
pub enum GreenChild {
    /// A nested node.
    Node(Rc<GreenNode>),
    /// A leaf.
    Token(Rc<GreenToken>),
}

/// The byte length a child reports: a node's recorded length, or a token's
/// length saturated to `u32::MAX`.
pub open spec fn reported_len(c: GreenChild) -> nat {
    match c {
        GreenChild::Node(n) => n.len_of() as nat,
        GreenChild::Token(t) => if t.bytes().len() > u32::MAX { u32::MAX as nat } else { t.bytes().len() },
    }
}

/// Sum of the lengths children report.
pub open spec fn reported_sum(s: Seq<GreenChild>) -> nat
    decreases s.len(),
{
    if s.len() == 0 {
        0
    } else {
        reported_sum(s.drop_last()) + reported_len(s.last())
    }
}

/// Whether a child reports the true length of its bytes.
pub open spec fn faithful(c: GreenChild) -> bool {
    reported_len(c) == child_text(c).len()
}

/// Whether every child of a sequence reports its true length.
pub open spec fn all_faithful(s: Seq<GreenChild>) -> bool {
    forall|i: int| 0 <= i < s.len() ==> #[trigger] faithful(s[i])
}

/// Children that report their true lengths report their text's total length.
pub proof fn lemma_faithful_sum(s: Seq<GreenChild>)
    requires
        all_faithful(s),
    ensures
        reported_sum(s) == seq_text(s).len(),
    decreases s.len(),
{
    if s.len() > 0 {
        assert(faithful(s[s.len() - 1]));
        let t = s.drop_last();
        assert forall|i: int| 0 <= i < t.len() implies #[trigger] faithful(t[i]) by {
            assert(t[i] == s[i]);
        }
        lemma_faithful_sum(t);
    }
}

/// The bytes a child covers.
pub open spec fn child_text(c: GreenChild) -> Seq<u8> {
    match c {
        GreenChild::Node(n) => n.text(),
        GreenChild::Token(t) => t.bytes(),
    }
}

/// The in-order concatenation of the bytes of a sequence of children.
pub open spec fn seq_text(s: Seq<GreenChild>) -> Seq<u8>
    decreases s.len(),
{
    if s.len() == 0 {
        Seq::empty()
    } else {
        seq_text(s.drop_last()) + child_text(s.last())
    }
}

/// The tokens under a child, in document order: each one's kind and bytes.
pub open spec fn child_leaves(c: GreenChild) -> Seq<(SyntaxKind, Seq<u8>)> {
    match c {
        GreenChild::Node(n) => n.leaves(),
        GreenChild::Token(t) => seq![(t.kind_of(), t.bytes())],
    }
}

/// The tokens under a sequence of children, in document order.
pub open spec fn seq_leaves(s: Seq<GreenChild>) -> Seq<(SyntaxKind, Seq<u8>)>
    decreases s.len(),
{
    if s.len() == 0 {
        Seq::empty()
    } else {
        seq_leaves(s.drop_last()) + child_leaves(s.last())
    }
}

/// Number of tokens and nodes under (and including) a child.
pub open spec fn child_size(c: GreenChild) -> nat {
    match c {
        GreenChild::Node(n) => 1 + n.size(),
        GreenChild::Token(_) => 1,
    }
}

/// Sum of [`child_size`] over a sequence.
pub open spec fn seq_size(s: Seq<GreenChild>) -> nat
    decreases s.len(),
{
    if s.len() == 0 {
        0
    } else {
        seq_size(s.drop_last()) + child_size(s.last())
    }
}

spec fn ctext(c: GreenChild) -> Seq<u8>
    decreases c, 0nat,
{
    match c {
        GreenChild::Node(n) => ntext_upto(*n, n.children@.len()),
        GreenChild::Token(t) => t.text@,
    }
}

spec fn ntext_upto(n: GreenNode, k: nat) -> Seq<u8>
    decreases n, k,
{
    if k == 0 || k > n.children@.len() {
        Seq::empty()
    } else {
        ntext_upto(n, (k - 1) as nat) + ctext(n.children@[k - 1])
    }
}

spec fn cleaves(c: GreenChild) -> Seq<(SyntaxKind, Seq<u8>)>
    decreases c, 0nat,
{
    match c {
        GreenChild::Node(n) => nleaves_upto(*n, n.children@.len()),
        GreenChild::Token(t) => seq![(t.kind, t.text@)],
    }
}

spec fn nleaves_upto(n: GreenNode, k: nat) -> Seq<(SyntaxKind, Seq<u8>)>
    decreases n, k,
{
    if k == 0 || k > n.children@.len() {
        Seq::empty()
    } else {
        nleaves_upto(n, (k - 1) as nat) + cleaves(n.children@[k - 1])
    }
}

/// One more than each of `d`.
pub open spec fn deeper(d: Seq<int>) -> Seq<int> {
    Seq::new(d.len(), |i: int| d[i] + 1)
}

spec fn cdepths(c: GreenChild) -> Seq<int>
    decreases c, 0nat,
{
    match c {
        GreenChild::Node(n) => deeper(ndepths_upto(*n, n.children@.len())),
        GreenChild::Token(t) => seq![0int],
    }
}

spec fn ndepths_upto(n: GreenNode, k: nat) -> Seq<int>
    decreases n, k,
{
    if k == 0 || k > n.children@.len() {
        Seq::empty()
    } else {
        ndepths_upto(n, (k - 1) as nat) + cdepths(n.children@[k - 1])
    }
}

/// How deep each token under a child lies, in document order, counted from
/// the child's parent: a token at depth 0, each token of a node one deeper
/// than it lies within that node.
pub open spec fn child_depths(c: GreenChild) -> Seq<int> {
    match c {
        GreenChild::Node(n) => deeper(n.depths()),
        GreenChild::Token(_) => seq![0int],
    }
}

/// How deep each token under a sequence of siblings lies, in document order.
pub open spec fn seq_depths(s: Seq<GreenChild>) -> Seq<int>
    decreases s.len(),
{
    if s.len() == 0 {
        Seq::empty()
    } else {
        seq_depths(s.drop_last()) + child_depths(s.last())
    }
}

spec fn cstarts(c: GreenChild) -> Seq<Option<u16>>
    decreases c, 0nat,
{
    match c {
        GreenChild::Node(n) => {
            let s = nstarts_upto(*n, n.children@.len());
            if n.children@.len() > 0 && n.children@[0] is Token { s.update(0, Some(n.kind.0)) } else { s }
        },
        GreenChild::Token(t) => seq![None],
    }
}

spec fn nstarts_upto(n: GreenNode, k: nat) -> Seq<Option<u16>>
    decreases n, k,
{
    if k == 0 || k > n.children@.len() {
        Seq::empty()
    } else {
        nstarts_upto(n, (k - 1) as nat) + cstarts(n.children@[k - 1])
    }
}

/// Which tokens under a sequence of siblings open a node, in document order:
/// a token that is the first child of a node is marked with that node's kind
/// code, any other token with `None`.
pub open spec fn seq_starts(s: Seq<GreenChild>) -> Seq<Option<u16>>
    decreases s.len(),
{
    if s.len() == 0 {
        Seq::empty()
    } else {
        seq_starts(s.drop_last()) + child_starts(s.last())
    }
}

/// The marks of the tokens under the children of a node of kind `k`: its
/// first child, when that is a token, marked with `k`.
pub open spec fn first_marked(s: Seq<GreenChild>, k: u16) -> Seq<Option<u16>> {
    if s.len() > 0 && s[0] is Token { seq_starts(s).update(0, Some(k)) } else { seq_starts(s) }
}

/// Which tokens under a child open a node: a token alone opens nothing.
pub open spec fn child_starts(c: GreenChild) -> Seq<Option<u16>> {
    match c {
        GreenChild::Node(n) => n.starts(),
        GreenChild::Token(_) => seq![None],
    }
}

spec fn csize(c: GreenChild) -> nat
    decreases c, 0nat,
{
    match c {
        GreenChild::Node(n) => 1 + nsize_upto(*n, n.children@.len()),
        GreenChild::Token(t) => 1,
    }
}

spec fn nsize_upto(n: GreenNode, k: nat) -> nat
    decreases n, k,
{
    if k == 0 || k > n.children@.len() {
        0
    } else {
        nsize_upto(n, (k - 1) as nat) + csize(n.children@[k - 1])
    }
}

/// An interior node: a kind, its children, and the byte length it covers.
#[derive(Debug)]
pub struct GreenNode {
    kind: SyntaxKind,
    text_len: u32,
    children: Vec<GreenChild>,
}

impl GreenNode {
    /// The node's kind, in specifications.
    pub closed spec fn kind_of(self) -> SyntaxKind {
        self.kind
    }

    /// The byte length recorded on the node, in specifications.
    pub closed spec fn len_of(self) -> u32 {
        self.text_len
    }

    /// The node's children, in specifications.
    pub closed spec fn kids(self) -> Seq<GreenChild> {
        self.children@
    }

    /// The bytes the node covers: its tokens' bytes, in document order.
    pub closed spec fn text(self) -> Seq<u8> {
        ntext_upto(self, self.children@.len())
    }

    /// The tokens under this node, in document order: kind and bytes.
    pub closed spec fn leaves(self) -> Seq<(SyntaxKind, Seq<u8>)> {
        nleaves_upto(self, self.children@.len())
    }

    /// How deep each token under this node lies within it, in document order:
    /// a child token at depth 0.
    pub closed spec fn depths(self) -> Seq<int> {
        ndepths_upto(self, self.children@.len())
    }

    /// Which tokens under this node open a node, in document order: each
    /// node's first child, when that is a token, marked with the node's kind
    /// code.
    pub closed spec fn starts(self) -> Seq<Option<u16>> {
        let s = nstarts_upto(self, self.children@.len());
        if self.children@.len() > 0 && self.children@[0] is Token { s.update(0, Some(self.kind.0)) } else { s }
    }

    /// Number of tokens and nodes strictly below this node.
    pub closed spec fn size(self) -> nat {
        nsize_upto(self, self.children@.len())
    }

    /// Whether the recorded length of this node, and of every node below it,
    /// is the length of its text.
    pub open spec fn consistent(self) -> bool {
        self.len_of() == self.text().len()
    }

    /// A node's text is the concatenation of its children's texts.
    pub broadcast proof fn lemma_text(self)
        ensures
            #[trigger] self.text() == seq_text(self.kids()),
            self.size() == seq_size(self.kids()),
            self.leaves() == seq_leaves(self.kids()),
            self.depths() == seq_depths(self.kids()),
            self.starts() == first_marked(self.kids(), self.kind_of().0),
    {
        lemma_upto_prefix(self, self.children@.len());
        assert(self.children@.subrange(0, self.children@.len() as int) == self.children@);
    }

    /// A node is larger than each of its children, so recursion over a tree
    /// from a node to its children terminates.
    pub proof fn lemma_kid_decreases(self, i: int)
        requires
            0 <= i < self.kids().len(),
        ensures
            decreases_to!(self => self.kids()[i]),
    {
        assert(decreases_to!(self => self.children));
        assert(decreases_to!(self.children => self.children@));
        assert(decreases_to!(self.children@ => self.children@[i]));
    }

    /// Build a node from its children, summing their byte lengths.
    pub fn new(kind: SyntaxKind, children: Vec<GreenChild>) -> (n: Self)
        requires
            reported_sum(children@) <= u32::MAX,
        ensures
            n.kind_of() == kind,
            n.kids() == children@,
            n.len_of() == reported_sum(children@),
            n.text() == seq_text(children@),
            n.leaves() == seq_leaves(children@),
            n.depths() == seq_depths(children@),
            n.starts() == first_marked(children@, kind.0),
            all_faithful(children@) ==> n.consistent(),
    {
        let mut total: u32 = 0;
        let mut i: usize = 0;
        while i < children.len()
            invariant
                i <= children.len(),
                total == reported_sum(children@.subrange(0, i as int)),
                reported_sum(children@) <= u32::MAX,
            decreases children.len() - i,
        {
            proof {
                assert(children@.subrange(0, i + 1).drop_last() == children@.subrange(0, i as int));
                lemma_reported_sum_prefix(children@, i + 1);
            }
            let add = children[i].text_len();
            total = total + add;
            i = i + 1;
        }
        proof {
            assert(children@.subrange(0, i as int) == children@);
        }
        let n = GreenNode { kind, text_len: total, children };
        proof {
            n.lemma_text();
            if all_faithful(n.children@) {
                lemma_faithful_sum(n.children@);
            }
        }
        n
    }

    /// This node's kind.
    pub fn kind(&self) -> (k: SyntaxKind)
        ensures
            k == self.kind_of(),
    {
        self.kind
    }

    /// Bytes covered by this node and everything under it, as recorded.
    pub fn text_len(&self) -> (r: u32)
        ensures
            r == self.len_of(),
    {
        self.text_len
    }

    /// This node's children, in document order.
    pub fn children(&self) -> (c: &[GreenChild])
        ensures
            c@ == self.kids(),
    {
        self.children.as_slice()
    }
}

proof fn lemma_upto_prefix(n: GreenNode, k: nat)
    requires
        k <= n.children@.len(),
    ensures
        ntext_upto(n, k) == seq_text(n.children@.subrange(0, k as int)),
        nsize_upto(n, k) == seq_size(n.children@.subrange(0, k as int)),
        nleaves_upto(n, k) == seq_leaves(n.children@.subrange(0, k as int)),
        ndepths_upto(n, k) == seq_depths(n.children@.subrange(0, k as int)),
        nstarts_upto(n, k) == seq_starts(n.children@.subrange(0, k as int)),
    decreases k,
{
    let s = n.children@.subrange(0, k as int);
    if k > 0 {
        lemma_upto_prefix(n, (k - 1) as nat);
        assert(s.drop_last() == n.children@.subrange(0, k - 1));
        lemma_ctext(n.children@[k - 1]);
    } else {
        assert(s.len() == 0);
    }
}

proof fn lemma_ctext(c: GreenChild)
    ensures
        ctext(c) == child_text(c),
        csize(c) == child_size(c),
        cleaves(c) == child_leaves(c),
        cdepths(c) == child_depths(c),
        cstarts(c) == child_starts(c),
{
}

proof fn lemma_reported_sum_prefix(s: Seq<GreenChild>, k: int)
    requires
        0 <= k <= s.len(),
    ensures
        reported_sum(s.subrange(0, k)) <= reported_sum(s),
    decreases s.len(),
{
    if k < s.len() {
        assert(s.drop_last().subrange(0, k) == s.subrange(0, k));
        lemma_reported_sum_prefix(s.drop_last(), k);
    } else {
        assert(s.subrange(0, k) == s);
    }
}

/// The text of a concatenation is the concatenation of the texts.
pub proof fn lemma_seq_text_append(a: Seq<GreenChild>, b: Seq<GreenChild>)
    ensures
        seq_text(a + b) == seq_text(a) + seq_text(b),
        seq_size(a + b) == seq_size(a) + seq_size(b),
        seq_leaves(a + b) == seq_leaves(a) + seq_leaves(b),
    decreases b.len(),
{
    if b.len() == 0 {
        assert(a + b == a);
        assert(seq_leaves(a) + Seq::<(SyntaxKind, Seq<u8>)>::empty() =~= seq_leaves(a));
    } else {
        assert((a + b).drop_last() == a + b.drop_last());
        lemma_seq_text_append(a, b.drop_last());
        vstd::seq_lib::lemma_concat_associative(seq_leaves(a), seq_leaves(b.drop_last()), child_leaves(b.last()));
    }
}

/// The text of a one-element sequence is the text of the element.
pub proof fn lemma_seq_text_single(c: GreenChild)
    ensures
        seq_text(seq![c]) == child_text(c),
        seq_size(seq![c]) == child_size(c),
        seq_leaves(seq![c]) == child_leaves(c),
{
    let s = seq![c];
    assert(s.drop_last() == Seq::<GreenChild>::empty());
    assert(s.last() == c);
    assert(seq_text(Seq::<GreenChild>::empty()) == Seq::<u8>::empty());
    assert(seq_size(Seq::<GreenChild>::empty()) == 0);
    assert(Seq::<u8>::empty() + child_text(c) == child_text(c));
    assert(seq_leaves(Seq::<GreenChild>::empty()) =~= Seq::<(SyntaxKind, Seq<u8>)>::empty());
    assert(Seq::<(SyntaxKind, Seq<u8>)>::empty() + child_leaves(c) =~= child_leaves(c));
}

impl GreenChild {
    /// Bytes covered by this child, as reported: saturated at `u32::MAX`.
    pub fn text_len(&self) -> (r: u32)
        ensures
            r == reported_len(*self),
    {
        match self {
            GreenChild::Node(node) => node.text_len(),
            GreenChild::Token(token) => {
                let n = token.text().len();
                if n > 4294967295usize {
                    4294967295u32
                } else {
                    n as u32
                }
            },
        }
    }
}

/// The work left on a teardown stack: each node with everything below it.
spec fn rc_stack_size(s: Seq<Rc<GreenNode>>) -> nat
    decreases s.len(),
{
    if s.len() == 0 {
        0
    } else {
        1 + s.last().size() + rc_stack_size(s.drop_last())
    }
}

/// The work left in some children: each child with everything below it.
spec fn kids_size(s: Seq<GreenChild>) -> nat {
    seq_size(s)
}

/// How many subtrees a teardown stack holds at most; past it a subtree is
/// released the ordinary way. Its pointers fill at most a gigabyte, so even a
/// doubling of the stack's capacity stays within `isize::MAX` bytes on 32-bit
/// targets too.
pub const TEARDOWN_LIMIT: usize = 0x0800_0000;

/// `Vec::new`, which std documents as not allocating: it cannot unwind.
#[verifier::external_body]
fn empty_vec<T>() -> (v: Vec<T>)
    ensures
        v@.len() == 0,
    opens_invariants none
    no_unwind
{
    Vec::new()
}

/// `Vec::pop`: the last element, removed, or `None` for an empty vector.
/// std documents no panic for it, so it cannot unwind.
#[verifier::external_body]
fn pop_last<T>(v: &mut Vec<T>) -> (r: Option<T>)
    ensures
        old(v)@.len() > 0 ==> r == Some(old(v)@.last()) && final(v)@ == old(v)@.drop_last(),
        old(v)@.len() == 0 ==> r is None && final(v)@ == old(v)@,
    opens_invariants none
    no_unwind
{
    v.pop()
}

/// `Vec::push` onto a stack of node pointers. std documents one panic, a new
/// capacity beyond `isize::MAX` bytes; below [`TEARDOWN_LIMIT`] pointers the
/// vector's growth stays far short of that, and running out of memory aborts
/// rather than unwinding. How far one push grows the capacity std leaves open;
/// that it stays within a doubling is what this relies on.
#[verifier::external_body]
fn push_node(v: &mut Vec<Rc<GreenNode>>, node: Rc<GreenNode>)
    requires
        old(v)@.len() < TEARDOWN_LIMIT,
    ensures
        final(v)@ == old(v)@.push(node),
    opens_invariants none
    no_unwind
{
    v.push(node)
}

/// `Rc::try_unwrap`: the node itself when this was its last owner, else the
/// pointer back. std documents no panic for it.
#[verifier::external_body]
fn unwrap_last_owner(node: Rc<GreenNode>) -> (r: Result<GreenNode, Rc<GreenNode>>)
    ensures
        match r {
            Ok(inner) => inner == *node,
            Err(back) => back == node,
        },
    opens_invariants none
    no_unwind
{
    Rc::try_unwrap(node)
}

/// Move the nested nodes out of `children`, leaving it empty; `height` counts
/// the stack.
fn take_nodes(children: &mut Vec<GreenChild>, stack: &mut Vec<Rc<GreenNode>>, height: &mut usize)
    requires
        *old(height) == old(stack)@.len(),
    ensures
        final(children)@.len() == 0,
        *final(height) == final(stack)@.len(),
        rc_stack_size(final(stack)@) <= rc_stack_size(old(stack)@) + seq_size(old(children)@),
    opens_invariants none
    no_unwind
{
    let mut kids: Vec<GreenChild> = empty_vec();
    std::mem::swap(&mut kids, children);
    let ghost base = rc_stack_size(stack@);
    let ghost total = seq_size(kids@);
    loop
        invariant
            rc_stack_size(stack@) + seq_size(kids@) <= base + total,
            children@.len() == 0,
            *height == stack@.len(),
        decreases kids@.len(),
    {
        let ghost before = kids@;
        let ghost sb = stack@;
        match pop_last(&mut kids) {
            Some(GreenChild::Node(rc)) => {
                if *height < TEARDOWN_LIMIT {
                    push_node(stack, rc);
                    *height = *height + 1;
                    proof {
                        assert(stack@.drop_last() == sb);
                    }
                }
            },
            Some(GreenChild::Token(_)) => {},
            None => {
                break;
            },
        }
    }
}

/// Take apart the nodes nested in `children`, iteratively: every node this is
/// the last owner of is emptied from a heap stack before it is freed, so the
/// depth of a tree costs heap rather than call stack; a subtree still shared
/// with another tree keeps its children.
fn dismantle(children: &mut Vec<GreenChild>)
    ensures
        final(children)@.len() == 0,
    opens_invariants none
    no_unwind
{
    let mut stack: Vec<Rc<GreenNode>> = empty_vec();
    let mut height: usize = 0;
    take_nodes(children, &mut stack, &mut height);
    loop
        invariant
            children@.len() == 0,
            height == stack@.len(),
        decreases rc_stack_size(stack@),
    {
        match pop_last(&mut stack) {
            Some(node) => {
                height = height - 1;
                match unwrap_last_owner(node) {
                    Ok(inner) => {
                        let mut inner = inner;
                        proof {
                            inner.lemma_text();
                        }
                        take_nodes(&mut inner.children, &mut stack, &mut height);
                    },
                    Err(_) => {},
                }
            },
            None => {
                break;
            },
        }
    }
}

impl Drop for GreenNode {
    /// Drop a node without recursing through its descendants: [`dismantle`]
    /// empties them first, so the node itself goes with no children left.
    fn drop(&mut self)
        opens_invariants none
        no_unwind
    {
        dismantle(&mut self.children);
    }
}

/// Text of a stack of children whose top is its last element: the top first.
pub open spec fn stack_text(s: Seq<&GreenChild>) -> Seq<u8>
    decreases s.len(),
{
    if s.len() == 0 {
        Seq::empty()
    } else {
        child_text(*s.last()) + stack_text(s.drop_last())
    }
}

/// Size of a stack of children.
pub open spec fn stack_size(s: Seq<&GreenChild>) -> nat
    decreases s.len(),
{
    if s.len() == 0 {
        0
    } else {
        child_size(*s.last()) + stack_size(s.drop_last())
    }
}

/// Push `kids` onto `stack` in reverse, so that they pop in document order.
fn push_reversed<'a>(stack: &mut Vec<&'a GreenChild>, kids: &'a [GreenChild])
    ensures
        stack_text(final(stack)@) == seq_text(kids@) + stack_text(old(stack)@),
        stack_size(final(stack)@) == seq_size(kids@) + stack_size(old(stack)@),
{
    let mut i = kids.len();
    proof {
        assert(kids@.subrange(i as int, kids@.len() as int).len() == 0);
    }
    while i > 0
        invariant
            i <= kids@.len(),
            stack_text(stack@) == seq_text(kids@.subrange(i as int, kids@.len() as int)) + stack_text(old(stack)@),
            stack_size(stack@) == seq_size(kids@.subrange(i as int, kids@.len() as int)) + stack_size(old(stack)@),
        decreases i,
    {
        i = i - 1;
        let ghost before = stack@;
        stack.push(&kids[i]);
        proof {
            assert(stack@.drop_last() == before);
            let tail = kids@.subrange(i + 1, kids@.len() as int);
            assert(kids@.subrange(i as int, kids@.len() as int) == seq![kids@[i as int]] + tail);
            lemma_seq_text_append(seq![kids@[i as int]], tail);
            lemma_seq_text_single(kids@[i as int]);
        }
    }
    proof {
        assert(kids@.subrange(0, kids@.len() as int) == kids@);
    }
}

/// A parsed document: the root of a lossless tree.
#[derive(Debug)]
pub struct Cst {
    root: Rc<GreenNode>,
}

impl Cst {
    /// The document's text: every token's bytes, in document order.
    pub closed spec fn text(self) -> Seq<u8> {
        self.root.text()
    }

    /// The root node, in specifications.
    pub closed spec fn root_node(self) -> GreenNode {
        *self.root
    }

    /// Wrap a green root.
    pub fn new(root: Rc<GreenNode>) -> (c: Self)
        ensures
            c.root_node() == *root,
            c.text() == root.text(),
    {
        Cst { root }
    }

    /// The root node.
    pub fn root(&self) -> (r: &Rc<GreenNode>)
        ensures
            **r == self.root_node(),
    {
        &self.root
    }

    /// Emit the exact bytes this tree covers: an in-order walk that
    /// concatenates token text, iterative so that depth costs heap, not stack.
    pub fn serialize(&self) -> (out: Vec<u8>)
        ensures
            out@ == self.text(),
    {
        let mut out: Vec<u8> = Vec::new();
        let mut stack: Vec<&GreenChild> = Vec::new();
        let root: &GreenNode = &self.root;
        push_reversed(&mut stack, root.children());
        proof {
            root.lemma_text();
        }
        while stack.len() > 0
            invariant
                out@ + stack_text(stack@) == self.text(),
            decreases stack_size(stack@),
        {
            let ghost before = stack@;
            let child = stack.pop().unwrap();
            proof {
                assert(before.drop_last() == stack@);
            }
            match child {
                GreenChild::Token(token) => {
                    let ghost o = out@;
                    out.extend_from_slice(token.text());
                    proof {
                        vstd::seq_lib::lemma_concat_associative(o, token.bytes(), stack_text(stack@));
                    }
                },
                GreenChild::Node(node) => {
                    let n: &GreenNode = node;
                    proof {
                        n.lemma_text();
                    }
                    push_reversed(&mut stack, n.children());
                },
            }
        }
        out
    }
}

/// The identity on bytes: the round trip of a grammar with no structure.
pub fn roundtrip_identity(input: &[u8]) -> (out: Vec<u8>)
    ensures
        out@ == input@,
{
    vstd::slice::slice_to_vec(input)
}

} // verus!
