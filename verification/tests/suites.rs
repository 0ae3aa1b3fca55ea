use lib::golden;
use lib::roundtrip::{self, Cause};
use lib::window::{first_difference, show_window};

fn golden_case(name: &str, input: &[u8], expected: &[u8]) -> golden::CaseFiles {
    (name.to_string(), input.to_vec(), expected.to_vec())
}

#[test]
fn identity_suite_passes() {
    let cases = vec![
        golden_case("a", b"key: value\n", b"key: value\n"),
        golden_case("b", b"", b""),
        golden_case("c", b"\xff\x00", b"\xff\x00"),
        golden_case("d", b"a: 1\r\n", b"a: 1\r\n"),
    ];
    let report = golden::run_cases("identity", cases, |b| b.to_vec()).expect("suite runs");
    assert!(report.total() >= 4, "suite shrank: {} cases", report.total());
    assert!(report.failures.is_empty());
    assert_eq!(report.passed, 4);
}

#[test]
fn a_wrong_transform_is_caught() {
    let cases = vec![
        golden_case("a", b"key: value\n", b"key: value\n"),
        golden_case("b", b"x", b"x"),
    ];
    let report = golden::run_cases("identity", cases, |_| b"wrong".to_vec()).expect("suite runs");
    assert_eq!(report.passed, 0);
    assert_eq!(report.failures.len(), report.total());
    assert!(report.failures[0].diff.contains("first difference at byte"));
    assert_eq!(report.failures[0].case, "a");
}

#[test]
fn golden_an_empty_suite_is_an_error_not_a_pass() {
    match golden::run_cases("empty", Vec::new(), |b| b.to_vec()) {
        Err(golden::SuiteError::Empty { path }) => assert_eq!(path, "empty"),
        other => panic!("an empty suite was not refused: {other:?}"),
    }
}

#[test]
fn a_golden_diff_names_the_byte_and_both_lengths() {
    let d = golden::render_diff(b"abc\n", b"abX\n");
    assert_eq!(
        d,
        "first difference at byte 2 (expected 4 bytes, got 4 bytes)\n  expected: abc\\n\n  actual:   abX\\n\n"
    );
}

#[test]
fn identity_round_trips_every_case() {
    let cases: Vec<roundtrip::CaseFile> = vec![
        ("a.yaml".to_string(), Some(b"key: value\n".to_vec())),
        ("b.yaml".to_string(), Some(b"\xff\xfe\x00".to_vec())),
    ];
    let report = roundtrip::run_cases("identity", cases, |input| Ok(input.to_vec())).expect("suite runs");
    assert_eq!(report.passed, 2);
    assert!(report.failures.is_empty());
}

#[test]
fn a_normalising_roundtrip_is_caught() {
    let cases: Vec<roundtrip::CaseFile> = vec![("crlf.yaml".to_string(), Some(b"a: 1\r\nb: 2\r\n".to_vec()))];
    let report = roundtrip::run_cases("normalising", cases, |input| {
        Ok(String::from_utf8_lossy(input).replace("\r\n", "\n").into_bytes())
    })
    .expect("suite runs");
    assert_eq!(report.passed, 0);
    match &report.failures[0].cause {
        Cause::NotByteIdentical { at, input_len, output_len, .. } => {
            assert_eq!(*at, 4);
            assert_eq!(*input_len, 12);
            assert_eq!(*output_len, 10);
        }
        other @ Cause::ParseFailed(_) => panic!("expected a byte mismatch, got {other:?}"),
    }
}

#[test]
fn a_parse_failure_is_reported_as_such() {
    let cases: Vec<roundtrip::CaseFile> = vec![("x.yaml".to_string(), Some(b"anything".to_vec()))];
    let report = roundtrip::run_cases("parse-fail", cases, |_| Err("no parser yet".into())).expect("suite runs");
    match &report.failures[0].cause {
        Cause::ParseFailed(message) => assert!(message.contains("no parser yet")),
        other @ Cause::NotByteIdentical { .. } => panic!("expected a parse failure, got {other:?}"),
    }
}

#[test]
fn roundtrip_an_empty_suite_is_an_error_not_a_pass() {
    match roundtrip::run_cases("empty", Vec::new(), |input| Ok(input.to_vec())) {
        Err(roundtrip::SuiteError::Empty { .. }) => {}
        other => panic!("an empty suite was not refused: {other:?}"),
    }
}

#[test]
fn an_unreadable_case_is_a_failure_not_a_skip() {
    let cases: Vec<roundtrip::CaseFile> = vec![("gone.yaml".to_string(), None)];
    let report = roundtrip::run_cases("unreadable", cases, |input| Ok(input.to_vec())).expect("suite runs");
    assert_eq!(report.total(), 1);
    match &report.failures[0].cause {
        Cause::ParseFailed(message) => assert_eq!(message, "case file could not be read"),
        other => panic!("expected a read failure, got {other:?}"),
    }
}

#[test]
fn the_round_trip_window_shows_both_sides() {
    assert_eq!(
        roundtrip::render_window(b"a: 1\r\n", b"a: 1\n", 4),
        "  input:      a: 1\\r\\n\n  serialised: a: 1\\n\n"
    );
}

#[test]
fn windows_escape_what_they_cannot_print() {
    assert_eq!(show_window(b"\x00a\tb\x7f", 0, 10), "\\x00a\\tb\\x7f");
    assert_eq!(show_window(b"abcdef", 2, 3), "cde");
    assert_eq!(show_window(b"abc", 5, 3), "");
}

#[test]
fn the_first_difference_is_the_shorter_length_when_one_is_a_prefix() {
    assert_eq!(first_difference(b"abc", b"abd"), 2);
    assert_eq!(first_difference(b"ab", b"abc"), 2);
    assert_eq!(first_difference(b"", b""), 0);
}

#[test]
fn golden_failure_message_lists_every_failure() {
    let cases = vec![golden_case("a", b"x", b"x"), golden_case("b", b"ab", b"ac")];
    let report = golden::run_cases("suite", cases, |b| b.to_vec()).expect("suite runs");
    let msg = report.failure_message().expect("one case failed");
    assert!(msg.starts_with("\n1 of 2 golden cases failed in suite\n\n"));
    assert!(msg.ends_with(&format!("\n--- b ---\n{}", golden::render_diff(b"ac", b"ab"))));
    let clean = golden::run_cases("suite", vec![golden_case("a", b"x", b"x")], |b| b.to_vec()).expect("suite runs");
    assert!(clean.failure_message().is_none());
}

#[test]
fn roundtrip_failure_message_says_why_each_case_failed() {
    let cases: Vec<roundtrip::CaseFile> =
        vec![("ok".to_string(), Some(b"a".to_vec())), ("gone".to_string(), None), ("bad".to_string(), Some(b"ab".to_vec()))];
    let report = roundtrip::run_cases("rt", cases, |input| if input == b"ab" { Ok(b"aX".to_vec()) } else { Ok(input.to_vec()) })
        .expect("suite runs");
    let msg = report.failure_message().expect("two cases failed");
    assert!(msg.starts_with("\nK1 VIOLATED: 2 of 3 cases in rt did not round-trip.\n\n"));
    assert!(msg.contains("\n--- gone ---\nparse failed:\ncase file could not be read\n"));
    assert!(msg.contains("\n--- bad ---\nfirst difference at byte 1 (input 2 bytes, serialised 2 bytes)\n  input:      "));
}
