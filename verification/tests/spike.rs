use lib::spike::arena;
use lib::spike::edit::{edit_text, expected_after_edit, expected_range, middle_word};
use lib::spike::green_red::{self, Red};
use lib::spike::lex::{lex, nesting, Kind};
use lib::spike::owned;

const SAMPLES: &[&[u8]] = &[
    b"",
    b"a: 1\n",
    b"a: 1\nb:\n  c: 'x y'\n  d: [1, 2]\n# note\ne: \"q\"\n",
    b"key: value",
    b"list:\r\n  - one\r\n  - two\r\n",
    b"\tx: y\n  z\n\n\nw # tail",
    b"s: 'unterminated\nt: \"also\n",
    b"a a a a\nb a\n",
];

#[test]
fn lexer_covers_every_byte() {
    for src in SAMPLES {
        let lexed = lex(src);
        assert_eq!(lexed.covered(), src.len());
        let mut at = 0u32;
        for t in &lexed.toks {
            assert_eq!(t.start, at);
            assert!(t.len >= 1);
            at += t.len;
        }
        assert_eq!(at as usize, src.len());
    }
}

#[test]
fn lexer_reads_kinds_and_lines() {
    let src = b"a: 'b'\n  # c\n";
    let lexed = lex(src);
    let kinds: Vec<Kind> = lexed.toks.iter().map(|t| t.kind).collect();
    assert_eq!(
        kinds,
        vec![
            Kind::Word,
            Kind::Punct,
            Kind::Space,
            Kind::Str,
            Kind::Newline,
            Kind::Indent,
            Kind::Comment,
            Kind::Newline
        ]
    );
    assert_eq!(lexed.lines.len(), 2);
    assert_eq!(lexed.lines[1].indent, 2);
    assert_eq!(nesting(&lexed.lines), vec![u32::MAX, 0]);
}

#[test]
fn every_representation_reads_back_its_input() {
    for src in SAMPLES {
        let lexed = lex(src);
        let parents = nesting(&lexed.lines);
        let o = owned::build(src, &lexed, &parents);
        assert_eq!(owned::serialize(&o), src.to_vec());
        let g = green_red::build(src, &lexed, &parents);
        assert_eq!(green_red::serialize(&g), src.to_vec());
        let a = arena::build(src, &lexed, &parents);
        assert_eq!(arena::serialize(&a), src.to_vec());
    }
}

#[test]
fn representations_count_the_same_nodes_and_tokens() {
    for src in SAMPLES {
        let lexed = lex(src);
        let parents = nesting(&lexed.lines);
        let want = (lexed.lines.len() + 1, lexed.toks.len());
        assert_eq!(owned::count_nodes(&owned::build(src, &lexed, &parents)), want);
        assert_eq!(green_red::count_nodes(&green_red::build(src, &lexed, &parents)), want);
        assert_eq!(arena::count_nodes(&arena::build(src, &lexed, &parents)), want);
    }
}

#[test]
fn nth_token_locates_the_lexers_token() {
    for src in SAMPLES {
        let lexed = lex(src);
        let parents = nesting(&lexed.lines);
        let o = owned::build(src, &lexed, &parents);
        let g = green_red::build(src, &lexed, &parents);
        let a = arena::build(src, &lexed, &parents);
        for n in 0..lexed.toks.len() {
            let want = expected_range(&lexed, n);
            let p = owned::nth_token_path(&o, n).unwrap();
            assert_eq!(owned::locate(&o, &p), want);
            let p = green_red::nth_token_path(&g, n).unwrap();
            assert_eq!(green_red::locate(&g.root, &p), want);
            let id = arena::nth_token(&a, n).unwrap();
            assert_eq!(arena::locate(&a, id), want);
        }
        let past = lexed.toks.len();
        assert!(owned::nth_token_path(&o, past).is_none());
        assert!(green_red::nth_token_path(&g, past).is_none());
        assert!(arena::nth_token(&a, past).is_none());
    }
}

#[test]
fn one_edit_changes_only_the_edited_token() {
    for src in SAMPLES {
        let lexed = lex(src);
        let parents = nesting(&lexed.lines);
        let Some(n) = middle_word(&lexed) else { continue };
        let text = edit_text();
        let expected = expected_after_edit(src, lexed.toks[n], &text);

        let mut o = owned::build(src, &lexed, &parents);
        let p = owned::nth_token_path(&o, n).unwrap();
        owned::replace_token(&mut o, &p, &text);
        assert_eq!(owned::serialize(&o), expected);

        let g = green_red::build(src, &lexed, &parents);
        let p = green_red::nth_token_path(&g, n).unwrap();
        let v2 = green_red::replace_token(&g.root, &p, &text);
        let v2 = green_red::Tree { root: v2, intern_hits: 0, intern_misses: 0 };
        assert_eq!(green_red::serialize(&v2), expected);
        assert_eq!(green_red::serialize(&g), src.to_vec());

        let mut a = arena::build(src, &lexed, &parents);
        let id = arena::nth_token(&a, n).unwrap();
        arena::replace_token(&mut a, id, &text);
        assert_eq!(arena::serialize(&a), expected);
    }
}

#[test]
fn edit_text_is_fixed() {
    assert_eq!(edit_text(), b"SPIKE-EDIT".to_vec());
}

#[test]
fn middle_word_picks_the_middle_word() {
    let lexed = lex(b"a: b c\n");
    // words at token indices 0, 3, 5
    assert_eq!(middle_word(&lexed), Some(3));
    let lexed = lex(b"a b\n");
    assert_eq!(middle_word(&lexed), Some(2));
    assert_eq!(middle_word(&lex(b": [] # x\n")), None);
    assert_eq!(middle_word(&lex(b"")), None);
}

#[test]
fn expected_after_edit_splices() {
    let lexed = lex(b"ab: cd\n");
    assert_eq!(expected_after_edit(b"ab: cd\n", lexed.toks[3], b"XYZ"), b"ab: XYZ\n".to_vec());
    assert_eq!(expected_after_edit(b"ab: cd\n", lexed.toks[0], b""), b": cd\n".to_vec());
    assert_eq!(expected_range(&lexed, 3), (4, 6));
}

#[test]
fn green_interning_counts_every_token_once() {
    let src = b"a a a a\nb a\n";
    let lexed = lex(src);
    let parents = nesting(&lexed.lines);
    let g = green_red::build(src, &lexed, &parents);
    assert_eq!(g.intern_hits + g.intern_misses, lexed.toks.len());
    // distinct tokens: Word a, Space, Newline, Word b
    assert_eq!(g.intern_misses, 4);
    assert_eq!(g.root.text_len as usize, src.len());
}

#[test]
fn green_edit_keeps_the_old_version() {
    let src = b"x: 1\ny: 2\n";
    let lexed = lex(src);
    let parents = nesting(&lexed.lines);
    let g = green_red::build(src, &lexed, &parents);
    let p = green_red::nth_token_path(&g, 0).unwrap();
    let v2 = green_red::replace_token(&g.root, &p, b"longer");
    assert_eq!(v2.text_len, 15);
    assert_eq!(g.root.text_len, 10);
    assert_eq!(green_red::serialize(&g), src.to_vec());
}

#[test]
fn red_nodes_know_their_ranges() {
    let src = b"a: 1\nb:\n  c: 2\n";
    let lexed = lex(src);
    let parents = nesting(&lexed.lines);
    let g = green_red::build(src, &lexed, &parents);
    let root = Red::root(g.root.clone());
    assert_eq!(root.range(), (0, src.len() as u32));
    let lines = root.children();
    assert_eq!(lines.len(), 2);
    assert_eq!(lines[0].range(), (0, 5));
    assert_eq!(lines[1].range(), (5, 15));
    let nested = lines[1].children();
    assert_eq!(nested.len(), 1);
    assert_eq!(nested[0].range(), (8, 15));
}

#[test]
fn arena_edit_writes_an_override_and_leaves_ancestors_stale() {
    let src = b"k: v\n";
    let lexed = lex(src);
    let parents = nesting(&lexed.lines);
    let mut a = arena::build(src, &lexed, &parents);
    assert!(a.overrides.is_empty());
    assert_eq!(a.src, src.to_vec());
    assert_eq!(a.root as usize, a.elems.len() - 1);
    let id = arena::nth_token(&a, 3).unwrap();
    assert_eq!(a.text_of(id), b"v");
    let root_len = a.elems[a.root as usize].len;
    assert_eq!(root_len, 5);
    arena::replace_token(&mut a, id, b"value");
    assert_eq!(a.overrides.len(), 1);
    assert_eq!(a.text_of(id), b"value");
    assert_eq!(arena::locate(&a, id), (3, 8));
    assert_eq!(a.elems[a.root as usize].len, root_len);
    assert_eq!(arena::serialize(&a), b"k: value\n".to_vec());
}

#[test]
fn owned_tree_nests_lines_by_indent() {
    let src = b"a:\n  b: 1\nc: 2\n";
    let lexed = lex(src);
    let parents = nesting(&lexed.lines);
    let o = owned::build(src, &lexed, &parents);
    assert_eq!(o.root.kind, Kind::Document);
    assert_eq!(o.root.children.len(), 2);
    match &o.root.children[0] {
        owned::Child::Node(n) => {
            assert_eq!(n.kind, Kind::Line);
            assert!(matches!(n.children.last(), Some(owned::Child::Node(_))));
        }
        owned::Child::Token(_) => panic!("a line node comes first"),
    }
}
