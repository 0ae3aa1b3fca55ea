use lib::yaml::kind::{COLON, NEWLINE, PLAIN, SPACE};
use lib::yaml::{build, lex, nesting, parse, validate, LineSpan};

fn round_trips(input: &[u8]) -> bool {
    parse(input).is_ok_and(|cst| cst.serialize() == input)
}

#[test]
fn yaml_the_lexer_covers_every_byte() {
    for case in [
        &b""[..],
        b"\n",
        b"a: 1\n",
        b"# just a comment\n",
        b"key: |\n  block\n  body\n",
        b"a: {{ .Values.x | quote }}\n",
        b"list:\n  - one\n  - two\n",
        b"---\na: 1\n...\n",
        b"\xef\xbb\xbfa: 1\n",
        b"weird: \xff\xfe\n",
        b"'unterminated\n",
        b"\t\ttabs\n",
    ] {
        let lexed = lex(case);
        assert_eq!(lexed.covered(), case.len(), "lexer dropped bytes in {case:?}");
    }
}

#[test]
fn k1_holds_on_the_constructs_the_corpus_contains() {
    for case in [
        &b"a: 1\n"[..],
        b"empty:\nvalue: 2\n",
        b"# comment\nkey: value  # trailing\n",
        b"quoted: \"a\\nb\"\nsingle: 'it''s'\n",
        b"flow: {a: 1, b: [1, 2]}\n",
        b"block: |\n  line one\n    deeper\n  line three\nafter: 1\n",
        b"folded: >-\n  folded text\nnext: 2\n",
        b"anchors: &a\n  x: 1\nuse:\n  <<: *a\n",
        b"---\ndoc: 1\n---\ndoc: 2\n...\n",
        b"crlf: 1\r\nsecond: 2\r\n",
        b"no_final_newline: true",
        b"deep:\n  a:\n    b:\n      c:\n        d: 1\n",
        b"tags: !!str 123\ncustom: !Foo\n  x: 1\n",
        b"%YAML 1.2\n---\nkey: value\n",
    ] {
        assert!(round_trips(case), "K1 violated for {case:?}");
    }
}

#[test]
fn go_templates_survive_verbatim() {
    for case in [
        &b"image: {{ .Values.image.repository }}:{{ .Values.image.tag }}\n"[..],
        b"{{- if .Values.enabled }}\nkey: 1\n{{- end }}\n",
        b"nested: {{ dict \"a\" 1 | toYaml | nindent 4 }}\n",
        b"unbalanced: {{ \"a colon: here\" }}\n",
        b"labels:\n  {{- include \"chart.labels\" . | nindent 4 }}\n",
    ] {
        assert!(round_trips(case), "K1 violated for template {case:?}");
    }
}

#[test]
fn byte_level_oddities_survive() {
    for case in [
        &b"\xef\xbb\xbfkey: value\n"[..],
        b"key: \xff\xfe\x80value\n",
        b"key: value\x00\n",
        b"trailing: spaces   \nnext: 1\n",
        b"\n\n\nblank: lines\n\n",
        b"indent:\n   three: 1\n    four: 2\n",
    ] {
        assert!(round_trips(case), "K1 violated for {case:?}");
    }
}

#[test]
fn tabs_are_accepted_and_round_trip() {
    for case in [
        &b"\t{}\n"[..],
        b"foo:\n \tbar\n",
        b"foo: 1\n\t\nbar: 2\n",
        b"key:\n  value\n  \t\n  tabs\n",
        b"a: \"x\ty\"\n",
    ] {
        assert!(round_trips(case), "K1 violated for {case:?}");
    }
}

#[test]
fn structural_violations_are_rejected() {
    for bad in [
        &b"--- |0\n"[..],
        b"--- |10\n",
        b"--- |+-\n",
        b"---\nfolded: > first line\n",
        b"block: ># comment\n  scalar\n",
        b"key: \"value\"# invalid\n",
        b"key1: &a value\nkey2: &b *a\n",
        b"&anchor - sequence entry\n",
        b"%YAML 1.2\n",
        b"%YAML 1.2\n...\n",
        b"%YAML 1.2\n%YAML 1.2\n---\n",
        b"%YAML 1.2 foo\n---\n",
        b"%YAML 1.1#...\n---\n",
        b"---\nkey: value\n... invalid\n",
    ] {
        assert!(parse(bad).is_err(), "{bad:?} should be rejected");
    }
}

#[test]
fn the_valid_neighbours_of_those_rules_are_accepted() {
    for good in [
        &b"---\nscalar\n%YAML 1.2\n"[..],
        b"---\n{ matches\n% : 20 }\n...\n",
        b"%YAML 1.2\n---\nDocument\n... # Suffix\n",
        b"%YAML 1.3 # Attempt parsing\n---\n",
        b"%FOO  bar baz # ignored\n     # continued\n---\n",
        b"config: |- {{- include \"chart.config\" . }}\n",
        b"list: &list\n  - a\n  - b\ncopy: *list\n",
    ] {
        assert!(round_trips(good), "{good:?} should be accepted and round-trip");
    }
}

#[test]
fn unterminated_quotes_are_rejected() {
    assert!(parse(b"a: 'unterminated\n").is_err());
    assert!(parse(b"a: \"unterminated\n").is_err());
}

#[test]
fn yaml_the_lexer_always_advances() {
    for byte in 0u8..=255 {
        let _ = parse(&[byte]);
        let _ = parse(&[b'a', b':', b' ', byte]);
        let _ = parse(&[byte, b'\n', byte]);
    }
}

#[test]
fn yaml_deep_nesting_does_not_touch_the_stack() {
    let levels = 20_000;
    let mut deep = Vec::new();
    for i in 0..levels {
        deep.extend(std::iter::repeat_n(b' ', i));
        deep.extend_from_slice(b"k:\n");
    }
    assert!(round_trips(&deep), "K1 must hold at {levels} levels");
}

#[test]
fn a_line_hangs_under_the_nearest_shallower_line() {
    let line = |indent: u32| LineSpan { indent, first: 0, end: 0 };
    let lines = vec![line(0), line(2), line(u32::MAX), line(4), line(2), line(0)];
    assert_eq!(nesting(&lines), vec![u32::MAX, 0, 1, 1, 0, u32::MAX]);
}

#[test]
fn validation_names_the_rule_and_build_keeps_every_byte() {
    let input = b"key1: &a value\nkey2: &b *a\n";
    let lexed = lex(input);
    let found = validate(&lexed, input);
    assert_eq!(found.len(), 1);
    assert_eq!(found[0].message, "an alias is a complete node and cannot carry an anchor");
    assert_eq!(build(input, &lexed).serialize(), input);
}

#[test]
fn a_colon_inside_a_plain_value_stays_in_the_value() {
    let lexed = lex(b"image: nginx:1.25\n");
    let kinds: Vec<u16> = lexed.tokens.iter().map(|t| t.kind.0).collect();
    let spans: Vec<(u32, u32)> = lexed.tokens.iter().map(|t| (t.span.start, t.span.end)).collect();
    assert_eq!(kinds, vec![PLAIN, COLON, SPACE, PLAIN, NEWLINE]);
    assert_eq!(spans, vec![(0, 5), (5, 6), (6, 7), (7, 17), (17, 18)]);
    assert!(lexed.diagnostics.is_empty());
}

#[test]
fn an_unterminated_quote_is_one_error_token_with_its_diagnostic() {
    let lexed = lex(b"a: 'unterminated\n");
    let errors: Vec<(u32, u32)> = lexed
        .tokens
        .iter()
        .filter(|t| t.kind.0 == lib::yaml::kind::ERROR)
        .map(|t| (t.span.start, t.span.end))
        .collect();
    assert_eq!(errors.len(), 1);
    assert_eq!(lexed.diagnostics.len(), 1);
    assert_eq!((lexed.diagnostics[0].span.start, lexed.diagnostics[0].span.end), errors[0]);
    assert_eq!(lexed.diagnostics[0].message, "unterminated quoted scalar: reached end of input before the closing quote");
    let report = parse(b"a: 'unterminated\n").expect_err("refused");
    assert_eq!(report.diagnostics().len(), 1);
}

/// The line tree as (kind code, token count, nested lines) per node.
fn line_shape(node: &lib::cst::GreenNode) -> (u16, usize, Vec<(u16, usize, usize)>) {
    let mut tokens = 0;
    let mut nested = Vec::new();
    for child in node.children() {
        match child {
            lib::cst::GreenChild::Token(_) => tokens += 1,
            lib::cst::GreenChild::Node(n) => {
                let inner = n.children().iter().filter(|c| matches!(c, lib::cst::GreenChild::Token(_))).count();
                let lines = n.children().len() - inner;
                nested.push((n.kind().0, inner, lines));
            }
        }
    }
    (node.kind().0, tokens, nested)
}

#[test]
fn yaml_lines_nest_under_the_line_they_are_indented_beneath() {
    let cst = parse(b"a:\n  b: 1\n  c: 2\nd: 3\n").expect("parses");
    let root = cst.root();
    assert_eq!(root.kind().0, lib::yaml::kind::STREAM);
    let (_, root_tokens, lines) = line_shape(root);
    assert_eq!(root_tokens, 0);
    assert_eq!(lines.len(), 2, "two lines at the top: {lines:?}");
    assert!(lines.iter().all(|l| l.0 == lib::yaml::kind::LINE));
    assert_eq!(lines[0].2, 2, "`a:` holds the two indented lines");
    assert_eq!(lines[1].2, 0, "`d: 3` holds none");
}
