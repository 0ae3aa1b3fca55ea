use lib::cli::{Common, Exit};
use lib::diff::{Change, ChangeKind, DiffError, DiffReport, Significance};
use lib::konflux::{
    diff_by_extension, display_path, extension_of, human, one_line, outcome, route, shared_extension, Route,
};

fn change(path: &str, kind: ChangeKind, significance: Significance, before: Option<&str>, after: Option<&str>) -> Change {
    Change {
        path: path.to_string(),
        kind,
        significance,
        before: before.map(str::to_string),
        after: after.map(str::to_string),
    }
}

fn common(positional: &[&str], help: bool) -> Common {
    Common {
        json: false,
        check: false,
        help,
        positional: positional.iter().map(|s| s.to_string()).collect(),
    }
}

#[test]
fn the_root_path_is_named() {
    assert_eq!(display_path(""), "(root)");
    assert_eq!(display_path("/a/b"), "/a/b");
}

#[test]
fn long_values_collapse_to_one_short_line() {
    assert_eq!(one_line("a\nb"), "a\\nb");
    let forty = "x".repeat(40);
    assert_eq!(one_line(&forty), forty);
    let long = "y".repeat(41);
    assert_eq!(one_line(&long), format!("{}...", "y".repeat(37)));
    assert_eq!(one_line(&"\n".repeat(25)).chars().count(), 40);
}

#[test]
fn an_empty_report_says_so() {
    assert_eq!(human(&DiffReport::default(), true), "no changes\n");
}

#[test]
fn the_human_view_aligns_and_counts() {
    let report = DiffReport {
        changes: vec![
            change("", ChangeKind::Changed, Significance::Semantic, Some("1"), Some("2")),
            change("/a", ChangeKind::Moved, Significance::Formatting, None, None),
            change("/long/path", ChangeKind::Added, Significance::Semantic, None, Some("x\ny")),
        ],
    };
    assert_eq!(
        human(&report, false),
        "~ (root)      1  ->  2\n> /a          (reordered)  [formatting]\n+ /long/path  x\\ny\n\n2 semantic, 1 formatting\n"
    );
    let coloured = human(&report, true);
    assert!(coloured.starts_with("\u{1b}[1m~ (root)    \u{1b}[0m  1  ->  2\n\u{1b}[2m> /a"));
}

#[test]
fn the_exit_code_tracks_meaning_not_bytes() {
    let formatting_only = DiffReport {
        changes: vec![change("/a", ChangeKind::Moved, Significance::Formatting, None, None)],
    };
    assert_eq!(outcome(&Ok(formatting_only)), Exit::Clean);
    let semantic = DiffReport {
        changes: vec![change("/a", ChangeKind::Removed, Significance::Semantic, Some("1"), None)],
    };
    assert_eq!(outcome(&Ok(semantic)), Exit::Finding);
    assert_eq!(outcome(&Ok(DiffReport::default())), Exit::Clean);
}

#[test]
fn a_refusal_is_its_own_exit_code() {
    let unparsed = lib::format::Format::parse(&lib::format::Json, b"{").map(|_| DiffReport::default()).map_err(DiffError::Unparsed);
    assert_eq!(outcome(&unparsed), Exit::Unmodelled);
    let refused = lib::diff::diff(&lib::format::Yaml, b"a: &x 1\n", b"a: &y 1\n");
    assert_eq!(outcome(&refused), Exit::Unmodelled);
}

#[test]
fn routes_follow_the_usage() {
    assert_eq!(route(&common(&[], false)), Ok(Route::Help));
    assert_eq!(route(&common(&["diff", "a", "b"], true)), Ok(Route::Help));
    assert_eq!(
        route(&common(&["diff", "a.yaml", "b.yaml"], false)),
        Ok(Route::Diff { a: "a.yaml".to_string(), b: "b.yaml".to_string() })
    );
    assert_eq!(
        route(&common(&["merge", "a"], false)),
        Err("unknown subcommand `merge`. konflux speaks `diff` today; merge arrives at M3.".to_string())
    );
    assert_eq!(route(&common(&["diff", "a"], false)), Err("diff needs two paths".to_string()));
    assert_eq!(
        route(&common(&["diff", "a", "b", "c"], false)),
        Err("diff takes exactly two paths, got 3. konflux compares two documents; a three-way merge is M3.".to_string())
    );
}

#[test]
fn extensions_are_read_as_paths_read_them() {
    assert_eq!(extension_of("dir/values.YAML"), "yaml");
    assert_eq!(extension_of("a.tar.gz"), "gz");
    assert_eq!(extension_of(".bashrc"), "");
    assert_eq!(extension_of("noext"), "");
    assert_eq!(extension_of("dir.json/file"), "");
    assert_eq!(extension_of("a.json/"), "json");
    assert_eq!(extension_of("a.json/."), "json");
    assert_eq!(extension_of("a.json/.."), "");
    assert_eq!(extension_of("trailing."), "");
    assert_eq!(extension_of(""), "");
    assert_eq!(extension_of("/"), "");
}

#[test]
fn diffing_across_formats_is_refused() {
    assert_eq!(shared_extension("a.yaml", "b.YAML"), Ok("yaml".to_string()));
    assert_eq!(
        shared_extension("a.yaml", "b.json"),
        Err("`a.yaml` and `b.json` are different formats. A diff across formats is a conversion, which is veritas's job, not konflux's.".to_string())
    );
}

#[test]
fn only_yaml_and_json_are_read() {
    assert!(matches!(diff_by_extension("yml", b"a: 1\n", b"a: 1\n"), Ok(Ok(_))));
    assert!(matches!(diff_by_extension("json", b"{}", b"[]"), Ok(Ok(_))));
    assert!(matches!(diff_by_extension("json", b"{", b"[]"), Ok(Err(_))));
    assert_eq!(
        diff_by_extension("toml", b"", b"").err(),
        Some("konflux does not read `.toml` yet. It speaks yaml and json today; toml and hcl arrive in Phase 2.".to_string())
    );
}

#[test]
fn the_cli_decisions_follow_the_structural_diff() {
    let semantic = diff_by_extension("yaml", b"replicas: 2\n", b"replicas: 3\n").expect("yaml is read");
    assert_eq!(outcome(&semantic), Exit::Finding);
    assert!(human(semantic.as_ref().expect("modelled"), false).contains("/replicas"));
    let reordered = diff_by_extension("yaml", b"a: 1\nb: 2\n", b"b: 2\na: 1\n").expect("yaml is read");
    assert_eq!(outcome(&reordered), Exit::Clean);
    assert!(human(reordered.as_ref().expect("modelled"), false).contains("formatting"));
    let same = diff_by_extension("yaml", b"a: 1\n", b"a: 1\n").expect("yaml is read");
    assert_eq!(outcome(&same), Exit::Clean);
    assert_eq!(human(same.as_ref().expect("modelled"), false), "no changes\n");
}
