use lib::cst::{roundtrip_identity, Cst, GreenChild, GreenNode, GreenToken, Span, SyntaxKind};
use std::rc::Rc;

const ROOT: SyntaxKind = SyntaxKind(0);
const WORD: SyntaxKind = SyntaxKind(1);

fn token(text: &[u8]) -> GreenChild {
    GreenChild::Token(Rc::new(GreenToken::new(WORD, text)))
}

#[test]
fn k1_holds_on_the_empty_grammar() {
    for case in [
        &b""[..],
        b"a",
        b"key: value  # comment\n",
        b"\r\n\r\n",
        b"\xff\xfe\x00invalid utf-8",
    ] {
        assert_eq!(roundtrip_identity(case), case, "K1 violated for {case:?}");
    }
}

#[test]
fn serialize_concatenates_tokens_in_document_order() {
    let cst = Cst::new(Rc::new(GreenNode::new(
        ROOT,
        vec![token(b"a: "), token(b"1"), token(b"\n")],
    )));
    assert_eq!(cst.serialize(), b"a: 1\n");
}

#[test]
fn serialize_descends_and_preserves_order() {
    let inner = GreenChild::Node(Rc::new(GreenNode::new(
        ROOT,
        vec![token(b"  b: "), token(b"2\n")],
    )));
    let cst = Cst::new(Rc::new(GreenNode::new(
        ROOT,
        vec![token(b"a:\n"), inner, token(b"c: 3\n")],
    )));
    assert_eq!(cst.serialize(), b"a:\n  b: 2\nc: 3\n");
}

#[test]
fn serialize_is_byte_transparent() {
    let raw: &[u8] = b"k: \xff\xfe\x00v\r\n";
    let cst = Cst::new(Rc::new(GreenNode::new(ROOT, vec![token(raw)])));
    assert_eq!(cst.serialize(), raw);
}

fn nested(depth: usize) -> Rc<GreenNode> {
    let mut node = Rc::new(GreenNode::new(ROOT, vec![token(b"x")]));
    for _ in 0..depth {
        node = Rc::new(GreenNode::new(ROOT, vec![GreenChild::Node(node)]));
    }
    node
}

#[test]
fn serialize_does_not_overflow_the_stack_on_deep_nesting() {
    assert_eq!(Cst::new(nested(10_000)).serialize(), b"x");
}

#[test]
fn dropping_a_deep_tree_does_not_overflow_the_stack() {
    drop(nested(100_000));
}

#[test]
fn dropping_does_not_free_a_shared_subtree() {
    let shared = nested(1_000);
    let a = Cst::new(Rc::new(GreenNode::new(
        ROOT,
        vec![GreenChild::Node(Rc::clone(&shared))],
    )));
    let b = Cst::new(Rc::new(GreenNode::new(
        ROOT,
        vec![GreenChild::Node(Rc::clone(&shared))],
    )));
    drop(a);
    assert_eq!(b.serialize(), b"x", "dropping one version damaged the other");
    drop(b);
    assert_eq!(Rc::strong_count(&shared), 1, "shared subtree leaked a reference");
}

#[test]
fn text_len_sums_the_whole_subtree() {
    let inner = GreenChild::Node(Rc::new(GreenNode::new(ROOT, vec![token(b"12345")])));
    let node = GreenNode::new(ROOT, vec![token(b"ab"), inner]);
    assert_eq!(node.text_len(), 7);
}

#[test]
fn verbatim_is_reserved_and_distinct() {
    assert_eq!(SyntaxKind::verbatim(), SyntaxKind(u16::MAX));
    assert_ne!(SyntaxKind::verbatim(), WORD);
}

#[test]
fn span_arithmetic_never_underflows() {
    let reversed = Span { start: 10, end: 4 };
    assert_eq!(reversed.len(), 0);
    assert!(reversed.is_empty());
    assert_eq!(Span { start: 4, end: 10 }.len(), 6);
}

#[test]
fn a_node_reports_its_kind_and_children() {
    let node = GreenNode::new(ROOT, vec![token(b"ab"), token(b"c")]);
    assert_eq!(node.kind(), ROOT);
    assert_eq!(node.children().len(), 2);
    assert_eq!(node.children()[1].text_len(), 1);
    let cst = Cst::new(Rc::new(node));
    assert_eq!(cst.root().text_len(), 3);
}
