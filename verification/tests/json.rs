use lib::json::{lex, parse, validate};

fn round_trips(input: &[u8]) -> bool {
    parse(input).is_ok_and(|cst| cst.serialize() == input)
}

#[test]
fn json_the_lexer_covers_every_byte() {
    for case in [
        &b"{}"[..],
        b"  {\t\"a\" : [1, 2.5e-3, true, null]  }\r\n",
        b"\xef\xbb\xbf{\"bom\":1}",
        b"{\"bad\": 01}",
        b"@!$",
        b"\"unterminated",
    ] {
        let lexed = lex(case);
        let covered: usize = lexed
            .lexemes
            .iter()
            .map(|l| (l.span.end - l.span.start) as usize)
            .sum();
        assert_eq!(covered, case.len(), "lexer dropped bytes in {case:?}");
    }
}

#[test]
fn k1_holds_on_the_shapes_that_break_normalising_parsers() {
    for case in [
        &b"{}"[..],
        b"[]",
        b"{\"zebra\":1,\"apple\":2}",
        b"{\"dup\":1,\"dup\":2}",
        b"[1,1.0,1e5,1E+5,-0,-0.0]",
        b"[\"a\\/b\",\"\\u0041\",\"\\t\",\"\\ud83d\\ude00\"]",
        b"{ \"a\" : 1 ,\n\n  \"b\" : 2 }",
        b"\xef\xbb\xbf{\"bom\":true}",
        b"{\r\n  \"crlf\": true\r\n}\r\n",
        b"{\"noFinalNewline\":true}",
        b"{\"trailing\":1}\n\n\n",
    ] {
        assert!(round_trips(case), "K1 violated for {case:?}");
    }
}

#[test]
fn numbers_are_bytes_not_values() {
    let case = b"[123456789012345678901234567890,0.1000000000000000055511151231257827]";
    assert!(round_trips(case));
}

#[test]
fn rfc8259_number_grammar_is_enforced() {
    for bad in [&b"01"[..], b"-01", b"1.", b".1", b"+1", b"1e", b"1e+", b"-", b"0x1"] {
        assert!(parse(bad).is_err(), "{bad:?} should be rejected");
    }
    for good in [&b"0"[..], b"-0", b"1", b"1.0", b"1e5", b"1E+5", b"-1.5e-10"] {
        assert!(parse(good).is_ok(), "{good:?} should be accepted");
    }
}

#[test]
fn string_grammar_is_enforced() {
    for bad in [
        &b"\"\x01\""[..],
        b"\"\\x\"",
        b"\"\\u00\"",
        b"\"\\uZZZZ\"",
        b"\"unterminated",
        b"'single quoted'",
    ] {
        assert!(parse(bad).is_err(), "{bad:?} should be rejected");
    }
}

#[test]
fn structural_errors_are_rejected() {
    for bad in [
        &b""[..],
        b"   ",
        b"{",
        b"}",
        b"[1,]",
        b"{\"a\":1,}",
        b"{\"a\"1}",
        b"{a:1}",
        b"[1 2]",
        b"{} {}",
        b"[}",
    ] {
        assert!(parse(bad).is_err(), "{bad:?} should be rejected");
    }
}

#[test]
fn invalid_utf8_is_rejected() {
    assert!(parse(b"[\"\xff\xfe\"]").is_err());
}

#[test]
fn json_deep_nesting_does_not_touch_the_stack() {
    let open = vec![b'['; 100_000];
    assert!(parse(&open).is_err(), "unclosed brackets must be rejected");

    let levels = 50_000;
    let mut balanced = Vec::new();
    balanced.extend(std::iter::repeat_n(b'[', levels));
    balanced.push(b'1');
    balanced.extend(std::iter::repeat_n(b']', levels));
    assert!(round_trips(&balanced), "K1 must hold at {levels} levels");
}

#[test]
fn json_the_lexer_always_advances() {
    for byte in 0u8..=255 {
        let _ = parse(&[byte]);
        let _ = parse(&[b'"', byte]);
        let _ = parse(&[b'[', byte, b']']);
    }
}

#[test]
fn validation_reports_the_first_problem_with_a_span() {
    let lexed = lex(b"{\"a\" 1}");
    let diagnostics = validate(&lexed);
    assert_eq!(diagnostics.len(), 1);
    assert!(diagnostics[0].message.contains("expected `:`"));
    assert_eq!(diagnostics[0].span.start, 5);
}

#[test]
fn a_lexical_error_is_reported_with_its_bytes() {
    let report = parse(b"[01]").expect_err("leading zero");
    assert!(!report.diagnostics().is_empty());
    assert!(report.render().starts_with("bytes "));
}

#[test]
fn lexical_problems_are_reported_where_and_as_the_lexer_finds_them() {
    let report = parse(b"[tru, 01, \"\\q\"]").expect_err("refused");
    let seen: Vec<(u32, u32, String)> =
        report.diagnostics().iter().map(|d| (d.span.start, d.span.end, d.message.clone())).collect();
    assert_eq!(
        seen,
        vec![
            (1, 4, "expected `true`, found `tru`".to_string()),
            (6, 8, "number has a leading zero".to_string()),
            (12, 13, "invalid escape `\\q`".to_string()),
        ]
    );
    let bad = parse(b"[\"\xff\"]").expect_err("refused");
    assert_eq!(bad.diagnostics()[0].message, "input is not valid UTF-8 (RFC 8259 \u{a7}8.1)");
    assert_eq!((bad.diagnostics()[0].span.start, bad.diagnostics()[0].span.end), (2, 3));
}

#[test]
fn json_containers_nest_one_node_each() {
    let cst = parse(b"{\"a\": [1, {}]}").expect("parses");
    let root = cst.root();
    assert_eq!(root.kind().0, lib::json::kind::DOCUMENT);
    let object = root
        .children()
        .iter()
        .find_map(|c| match c {
            lib::cst::GreenChild::Node(n) => Some(n.clone()),
            _ => None,
        })
        .expect("an object node");
    assert_eq!(object.kind().0, lib::json::kind::OBJECT);
    let array = object
        .children()
        .iter()
        .find_map(|c| match c {
            lib::cst::GreenChild::Node(n) => Some(n.clone()),
            _ => None,
        })
        .expect("an array node inside the object");
    assert_eq!(array.kind().0, lib::json::kind::ARRAY);
    let inner = array.children().iter().filter(|c| matches!(c, lib::cst::GreenChild::Node(_))).count();
    assert_eq!(inner, 1, "the empty object nests inside the array");
}
