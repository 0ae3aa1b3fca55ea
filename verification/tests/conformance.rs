use lib::conformance::{find_record, run, threshold_records, Case, Expectation, Report, Verdict};

fn case(name: &str, expectation: Expectation) -> Case {
    Case {
        name: name.to_string(),
        bytes: name.as_bytes().to_vec(),
        expectation,
    }
}

fn cases_clone(cases: &[Case]) -> Vec<Case> {
    cases
        .iter()
        .map(|c| Case {
            name: c.name.clone(),
            bytes: c.bytes.clone(),
            expectation: c.expectation,
        })
        .collect()
}

#[test]
fn a_do_nothing_parser_scores_zero_on_accept() {
    let cases = vec![
        case("y_a", Expectation::MustAccept),
        case("y_b", Expectation::MustAccept),
        case("n_a", Expectation::MustReject),
        case("n_b", Expectation::MustReject),
        case("n_c", Expectation::MustReject),
    ];
    let report = run("demo", cases, |_| Verdict::Rejected);
    assert_eq!(report.accept.correct, 0);
    assert_eq!(report.reject.correct, 3);
    assert_eq!(report.accept.total, 2);
    assert_eq!(report.reject.total, 3);
}

#[test]
fn implementation_defined_cases_never_fail() {
    let cases = vec![case("i_a", Expectation::ImplementationDefined)];
    for verdict in [Verdict::Accepted, Verdict::Rejected] {
        let report = run("demo", cases_clone(&cases), |_| verdict);
        assert!(report.failures.is_empty());
        assert_eq!(report.either.total, 1);
    }
}

#[test]
fn the_failure_list_is_stable_and_truncates() {
    let cases: Vec<Case> = ["y_c", "y_a", "y_b"]
        .iter()
        .map(|n| case(n, Expectation::MustAccept))
        .collect();
    let report = run("demo", cases, |_| Verdict::Rejected);
    let names: Vec<&str> = report.failures.iter().map(|(n, _, _)| n.as_str()).collect();
    assert_eq!(names, ["y_a", "y_b", "y_c"], "failure list is not sorted");
    assert!(report.failure_list(2).contains("and 1 more"));
}

#[test]
fn the_failure_list_renders_each_line_exactly() {
    let report = run("demo", vec![case("y_a", Expectation::MustAccept), case("n_a", Expectation::MustReject)], |b| {
        if b == b"n_a" { Verdict::Accepted } else { Verdict::Rejected }
    });
    assert_eq!(
        report.failure_list(5),
        "    n_a: expected MustReject, got Accepted\n    y_a: expected MustAccept, got Rejected\n"
    );
    assert_eq!(report.failure_list(0), "    ... and 2 more\n");
}

#[test]
fn a_perfect_parser_has_no_failures_and_full_tallies() {
    let cases = vec![
        case("y_a", Expectation::MustAccept),
        case("n_a", Expectation::MustReject),
        case("i_a", Expectation::ImplementationDefined),
    ];
    let report: Report = run("suite", cases, |b| if b.starts_with(b"n") { Verdict::Rejected } else { Verdict::Accepted });
    assert_eq!(report.suite, "suite");
    assert!(report.failures.is_empty());
    assert_eq!((report.accept.total, report.accept.correct), (1, 1));
    assert_eq!((report.reject.total, report.reject.correct), (1, 1));
    assert_eq!((report.either.total, report.either.correct), (1, 1));
}

#[test]
fn equal_names_keep_their_input_order() {
    let mut a = case("same", Expectation::MustAccept);
    a.bytes = b"first".to_vec();
    let mut b = case("same", Expectation::MustReject);
    b.bytes = b"second".to_vec();
    let report = run("demo", vec![a, b], |bytes| if bytes == b"first" { Verdict::Rejected } else { Verdict::Accepted });
    let kinds: Vec<Expectation> = report.failures.iter().map(|(_, e, _)| *e).collect();
    assert_eq!(kinds, [Expectation::MustAccept, Expectation::MustReject]);
}

#[test]
fn threshold_records_are_read_in_order_past_blanks_and_comments() {
    let text = "# comment\n\nyaml-test-suite accept 0.95\nyaml-test-suite reject unrecorded\r\n  json  accept\t1  extra\n";
    let (records, malformed) = threshold_records(text);
    let s = |a: &str, b: &str, c: &str| (a.to_string(), b.to_string(), c.to_string());
    assert_eq!(
        records,
        vec![s("yaml-test-suite", "accept", "0.95"), s("yaml-test-suite", "reject", "unrecorded"), s("json", "accept", "1")]
    );
    assert_eq!(malformed, None);
    assert_eq!(find_record(&records, "yaml-test-suite", "reject"), Some(1));
    assert_eq!(find_record(&records, "json", "reject"), None);
}

#[test]
fn a_short_threshold_line_stops_the_reading() {
    let (records, malformed) = threshold_records("x accept 1\n  a b  \nc d e\n");
    assert_eq!(records, vec![("x".to_string(), "accept".to_string(), "1".to_string())]);
    assert_eq!(malformed, Some("a b".to_string()));
}
