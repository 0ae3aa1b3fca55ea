use lib::diff::{diff, diff_views, escape, Change, ChangeKind, DiffError, DiffReport, Significance};
use lib::semantic::Unmodelled;
use lib::format::{Format, Json, Yaml};

fn change(path: &str, kind: ChangeKind, significance: Significance) -> Change {
    Change {
        path: path.to_string(),
        kind,
        significance,
        before: None,
        after: None,
    }
}

#[test]
fn an_empty_report_is_still_schema_versioned() {
    let json = DiffReport::default().to_json();
    assert!(json.contains("\"schema_version\": 1"));
    assert!(json.contains("\"changes\": []"));
}

#[test]
fn optional_fields_are_omitted_not_nulled() {
    let json = DiffReport {
        changes: vec![change("/a", ChangeKind::Moved, Significance::Formatting)],
    }
    .to_json();
    assert!(!json.contains("null"));
    assert!(!json.contains("before"));
    assert!(json.contains("\"significance\": \"formatting\"\n"));
}

#[test]
fn a_pointer_with_a_slash_in_the_key_survives_json_escaping() {
    let json = DiffReport {
        changes: vec![change(
            "/nodeSelector/kubernetes.io~1os",
            ChangeKind::Changed,
            Significance::Semantic,
        )],
    }
    .to_json();
    assert!(json.contains("\"path\": \"/nodeSelector/kubernetes.io~1os\""));
}

#[test]
fn values_are_escaped_as_json_strings() {
    assert_eq!(escape("a\"b\\c\nd\te"), r#"a\"b\\c\nd\te"#);
    assert_eq!(escape("\u{1}"), "\\u0001");
}

#[test]
fn the_rendered_json_ends_in_exactly_one_newline() {
    for report in [
        DiffReport::default(),
        DiffReport {
            changes: vec![change("", ChangeKind::Moved, Significance::Formatting)],
        },
    ] {
        let json = report.to_json();
        assert!(json.ends_with("}\n"), "{json:?}");
        assert!(!json.ends_with("}\n\n"));
    }
}

#[test]
fn a_full_change_renders_every_field_in_order() {
    let mut c = change("/k", ChangeKind::Changed, Significance::Semantic);
    c.before = Some("1".to_string());
    c.after = Some("\"two\"".to_string());
    let json = DiffReport { changes: vec![c.clone(), change("/z", ChangeKind::Added, Significance::Semantic)] }.to_json();
    let expected = "{\n  \"schema_version\": 1,\n  \"changes\": [\n    {\n      \"path\": \"/k\",\n      \"kind\": \"changed\",\n      \"significance\": \"semantic\",\n      \"before\": \"1\",\n      \"after\": \"\\\"two\\\"\"\n    },\n    {\n      \"path\": \"/z\",\n      \"kind\": \"added\",\n      \"significance\": \"semantic\"\n    }\n  ]\n}\n";
    assert_eq!(json, expected);
    assert_eq!(ChangeKind::Removed.as_str(), "removed");
    assert_eq!(Significance::Formatting.as_str(), "formatting");
}

fn kinds(report: &DiffReport) -> Vec<(String, ChangeKind, Significance, Option<String>, Option<String>)> {
    report.changes.iter().map(|c| (c.path.clone(), c.kind, c.significance, c.before.clone(), c.after.clone())).collect()
}

#[test]
fn a_semantic_change_is_reported_at_its_pointer() {
    let report = diff(&Yaml, b"replicas: 2\n", b"replicas: 3\n").expect("both are modelled");
    assert_eq!(
        kinds(&report),
        vec![("/replicas".to_string(), ChangeKind::Changed, Significance::Semantic, Some("2".to_string()), Some("3".to_string()))]
    );
    assert!(report.to_json().contains("\"path\": \"/replicas\""));
}

#[test]
fn a_key_reordering_is_reported_as_formatting_only() {
    let report = diff(&Yaml, b"a: 1\nb: 2\n", b"b: 2\na: 1\n").expect("both are modelled");
    assert!(!report.changes.is_empty());
    assert!(report.changes.iter().all(|c| c.significance == Significance::Formatting));
    assert_eq!(kinds(&report), vec![(String::new(), ChangeKind::Moved, Significance::Formatting, None, None)]);
}

#[test]
fn identical_documents_have_no_changes() {
    assert!(diff(&Yaml, b"a: 1\n", b"a: 1\n").expect("modelled").changes.is_empty());
    assert!(diff(&Json, b"{\"a\": [1, {\"b\": true}]}", b"{\"a\": [1, {\"b\": true}]}").expect("modelled").changes.is_empty());
}

#[test]
fn quoting_alone_is_a_formatting_change() {
    let report = diff(&Json, b"{\"a\": \"x\"}", b"{\"a\": \"\\u0078\"}").expect("modelled");
    assert_eq!(
        kinds(&report),
        vec![("/a".to_string(), ChangeKind::Changed, Significance::Formatting, Some("\"x\"".to_string()), Some("\"\\u0078\"".to_string()))]
    );
}

#[test]
fn keys_only_one_side_has_are_added_or_removed() {
    let report = diff(&Json, b"{\"a\": 1, \"k/x~\": 2}", b"{\"a\": 1, \"c\": [1, 2]}").expect("modelled");
    assert_eq!(
        kinds(&report),
        vec![
            ("/c".to_string(), ChangeKind::Added, Significance::Semantic, None, Some("[2 items]".to_string())),
            ("/k~1x~0".to_string(), ChangeKind::Removed, Significance::Semantic, Some("2".to_string()), None),
        ]
    );
}

#[test]
fn sequences_are_compared_item_by_item() {
    let report = diff(&Json, b"[1, 2, 3]", b"[1, 5]").expect("modelled");
    assert_eq!(
        kinds(&report),
        vec![
            ("/1".to_string(), ChangeKind::Changed, Significance::Semantic, Some("2".to_string()), Some("5".to_string())),
            ("/2".to_string(), ChangeKind::Removed, Significance::Semantic, Some("3".to_string()), None),
        ]
    );
    let grown = diff(&Json, b"[]", b"[{}]").expect("modelled");
    assert_eq!(kinds(&grown), vec![("/0".to_string(), ChangeKind::Added, Significance::Semantic, None, Some("{0 keys}".to_string()))]);
}

#[test]
fn a_change_of_shape_is_one_semantic_change() {
    let report = diff(&Json, b"{\"a\": 1}", b"{\"a\": {\"b\": 1}}").expect("modelled");
    assert_eq!(
        kinds(&report),
        vec![("/a".to_string(), ChangeKind::Changed, Significance::Semantic, Some("1".to_string()), Some("{1 keys}".to_string()))]
    );
}

#[test]
fn diff_refuses_what_does_not_parse_or_cannot_be_modelled() {
    assert!(matches!(diff(&Json, b"{}", b"{"), Err(DiffError::Unparsed(_))));
    assert!(matches!(diff(&Yaml, b"a: &x 1\n", b"a: &y 1\n"), Err(DiffError::Unmodelled(_))));
}

#[test]
fn a_diff_reports_the_first_side_that_does_not_parse() {
    let bad_a = Json.parse(b"{").expect_err("does not parse");
    let n = bad_a.diagnostics().len();
    match diff(&Json, b"{", b"[") {
        Err(DiffError::Unparsed(e)) => assert_eq!(e.diagnostics().len(), n),
        other => panic!("expected a parse refusal, got {other:?}"),
    }
}

#[test]
fn diff_views_reports_the_first_refusal() {
    let first = Unmodelled { format: "yaml", reason: "first" };
    let second = Unmodelled { format: "yaml", reason: "second" };
    match diff_views(Err(first.clone()), Err(second)) {
        Err(DiffError::Unmodelled(u)) => assert_eq!(u, first),
        other => panic!("expected the first refusal, got {other:?}"),
    }
}

#[test]
fn the_report_is_sorted_by_path_then_kind() {
    let report = diff(&Yaml, b"b: 1\na: 2\n", b"a: 3\nb: 4\n").expect("modelled");
    assert_eq!(
        kinds(&report),
        vec![
            (String::new(), ChangeKind::Moved, Significance::Formatting, None, None),
            ("/a".to_string(), ChangeKind::Changed, Significance::Semantic, Some("2".to_string()), Some("3".to_string())),
            ("/b".to_string(), ChangeKind::Changed, Significance::Semantic, Some("1".to_string()), Some("4".to_string())),
        ]
    );
    let again = diff(&Yaml, b"b: 1\na: 2\n", b"a: 3\nb: 4\n").expect("modelled");
    assert_eq!(report.to_json(), again.to_json());
}
