use lib::corpus::{check, is_pinned_sha, parse_manifest, split_kv, summarize, Manifest, Source, GLOBAL_FILE_CAP};
use lib::fuzz_hours::{nightly_limits, parse_runs, Run};
use lib::tree_report::{escape, fetch_receipt, is_skipped_dir, relative, render_entries, Entry};

const GOOD: &str = "#! category = helm\n#! cap = 3\n\n# a comment\n[source]\nname = charts\nrepo = https://github.com/example/charts\nrev = 7da1f0d6e15bb28f3ad2446b7e6c560cc164098f\nlicense = Apache-2.0\nlicense_file = LICENSE\ninclude = charts/**/*.yaml\nmax_files = 3\n";

#[test]
fn pinned_sha_rejects_moving_refs() {
    assert!(is_pinned_sha("7da1f0d6e15bb28f3ad2446b7e6c560cc164098f"));
    assert!(!is_pinned_sha("main"), "branches move");
    assert!(!is_pinned_sha("v1.2.3"), "tags move");
    assert!(!is_pinned_sha("7DA1F0D6E15BB28F3AD2446B7E6C560CC164098F"), "case must be canonical");
    assert!(!is_pinned_sha("7da1f0d"), "short SHAs are ambiguous");
}

#[test]
fn the_global_cap_is_the_documented_one() {
    assert_eq!(GLOBAL_FILE_CAP, 1_000);
}

#[test]
fn a_good_manifest_reads_and_passes() {
    let m = parse_manifest(GOOD, "helm.sources").expect("reads");
    assert_eq!(m.category, "helm");
    assert_eq!(m.cap, 3);
    assert_eq!(m.sources.len(), 1);
    assert_eq!(m.sources[0].name, "charts");
    assert_eq!(m.sources[0].includes, vec!["charts/**/*.yaml".to_string()]);
    assert_eq!(m.sources[0].line, 5);
    assert!(check(&m).is_empty());
    assert_eq!(
        summarize("corpora/sources", vec![Ok(m)]),
        Ok("corpus manifests\n  helm             cap     3   1 source(s)\n  TOTAL            cap     3   (ceiling 1000)\n".to_string())
    );
}

#[test]
fn malformed_manifest_lines_are_named() {
    assert_eq!(
        parse_manifest("name = x\n", "a.sources").err(),
        Some("a.sources:1: `name = x` appears before any [source]".to_string())
    );
    assert_eq!(
        parse_manifest("#! colour = red\n", "a.sources").err(),
        Some("a.sources:1: unknown directive `colour`".to_string())
    );
    assert_eq!(
        parse_manifest("#! cap = many\n", "a.sources").err(),
        Some("a.sources:1: cap `many` is not a number".to_string())
    );
    assert_eq!(
        parse_manifest("#! category = x\n", "a.sources").err(),
        Some("a.sources: missing `#! cap = ...`".to_string())
    );
    assert_eq!(
        parse_manifest("#! cap = 1\n", "a.sources").err(),
        Some("a.sources: missing `#! category = ...`".to_string())
    );
    assert_eq!(
        parse_manifest("#! cap = 1\n[source]\nflavour = x\n", "a.sources").err(),
        Some("a.sources:3: unknown key `flavour`".to_string())
    );
    assert_eq!(
        parse_manifest("#! cap = 1\n[source]\nno equals here\n", "a.sources").err(),
        Some("a.sources:3: `no equals here` is not `key = value`".to_string())
    );
}

#[test]
fn split_kv_trims_and_splits_at_the_first_equals() {
    assert_eq!(split_kv("  a = b = c ", "f", 2), Ok(("a".to_string(), "b = c".to_string())));
}

fn source(name: &str, rev: &str, repo: &str, license: &str, max_files: u32) -> Source {
    Source {
        name: name.to_string(),
        repo: repo.to_string(),
        rev: rev.to_string(),
        license: license.to_string(),
        license_file: "LICENSE".to_string(),
        includes: vec!["*".to_string()],
        max_files,
        line: 7,
    }
}

#[test]
fn every_rule_is_checked_and_reported() {
    let m = Manifest {
        file: "m.sources".to_string(),
        category: "c".to_string(),
        cap: 5,
        sources: vec![
            source("a", "main", "http://x", "GPL-3.0", 1),
            source("a", "7da1f0d6e15bb28f3ad2446b7e6c560cc164098f", "https://x", "MIT", 0),
        ],
    };
    let problems = check(&m);
    assert_eq!(
        problems,
        vec![
            "m.sources:7: rev `main` is not a 40-char lowercase hex commit SHA. Branches and tags move; a moving corpus makes a green proof meaningless.".to_string(),
            "m.sources:7: repo `http://x` is not an https:// URL".to_string(),
            "m.sources:7: license `GPL-3.0` is not on the allow-list (Apache-2.0, MIT, BSD-2-Clause, BSD-3-Clause, ISC, MPL-2.0)".to_string(),
            "m.sources:7: `max_files` must be > 0".to_string(),
            "m.sources:7: duplicate source name `a`".to_string(),
            "m.sources: sources declare 1 files but the category cap is 5. They must match exactly, so the cap is a fact and not a hope.".to_string(),
        ]
    );
}

#[test]
fn a_corpus_with_no_manifests_is_vacuous() {
    assert!(summarize("dir", Vec::new()).unwrap_err().starts_with("no `*.sources` manifests in dir"));
}

#[test]
fn all_problems_are_reported_sorted() {
    let m = Manifest { file: "z.sources".to_string(), category: "c".to_string(), cap: 0, sources: Vec::new() };
    let err = summarize("d", vec![Err("b: unreadable".to_string()), Ok(m)]).unwrap_err();
    assert_eq!(err, "b: unreadable\nz.sources: declares a cap but lists no sources");
}

#[test]
fn caps_over_the_ceiling_are_refused() {
    let mut m = parse_manifest(GOOD, "helm.sources").expect("reads");
    m.cap = 1001;
    m.sources[0].max_files = 1001;
    let err = summarize("d", vec![Ok(m)]).unwrap_err();
    assert_eq!(err, "total cap 1001 exceeds the 1000-file ceiling");
}

const SAMPLE: &str = r#"[{"conclusion":"success","databaseId":1,"headSha":"aaa111"},
      {"conclusion":"failure","databaseId":2,"headSha":"bbb222"},
      {"conclusion":"","databaseId":3,"headSha":"ccc333"}]"#;

#[test]
fn parses_the_shape_gh_emits() {
    let runs = parse_runs(SAMPLE);
    assert_eq!(
        runs,
        vec![
            Run { sha: "aaa111".into(), conclusion: "success".into() },
            Run { sha: "bbb222".into(), conclusion: "failure".into() },
            Run { sha: "ccc333".into(), conclusion: String::new() },
        ]
    );
}

#[test]
fn malformed_input_yields_nothing_rather_than_panicking() {
    for junk in ["", "[]", "not json", "{\"conclusion\":\"success\"}"] {
        assert!(parse_runs(junk).is_empty(), "{junk:?}");
    }
}

#[test]
fn a_run_without_a_conclusion_is_unfinished() {
    assert_eq!(parse_runs("{\"headSha\": \"abc\"}"), vec![Run { sha: "abc".into(), conclusion: String::new() }]);
}

#[test]
fn helpers_behave() {
    assert_eq!(escape(r#"a"b\c"#), r#"a\"b\\c"#);
    assert_eq!(relative("/repo", "/repo/a/b.rs"), "a/b.rs");
}

#[test]
fn paths_outside_the_root_keep_every_component() {
    assert_eq!(relative("/repo", "/other/a"), "//other/a");
    assert_eq!(relative("/repo/", "/repo/./a//b"), "a/b");
    assert_eq!(relative("repo", "repo"), "");
}

#[test]
fn build_output_and_vcs_internals_are_skipped() {
    for name in [".git", "target", "node_modules", ".venv", "__pycache__"] {
        assert!(is_skipped_dir(name));
    }
    assert!(!is_skipped_dir("src"));
}

#[test]
fn report_entries_are_sorted_byte_wise_and_versioned() {
    let entries = vec![
        Entry { path: "b/x".into(), len: 2, digest: "bb".into() },
        Entry { path: "a\"q".into(), len: 10, digest: "aa".into() },
    ];
    assert_eq!(
        render_entries(entries),
        "{\n  \"schema_version\": 1,\n  \"file_count\": 2,\n  \"files\": [\n    {\"path\": \"a\\\"q\", \"len\": 10, \"sha256\": \"aa\"},\n    {\"path\": \"b/x\", \"len\": 2, \"sha256\": \"bb\"}\n  ]\n}\n"
    );
    assert_eq!(render_entries(Vec::new()), "{\n  \"schema_version\": 1,\n  \"file_count\": 0,\n  \"files\": [\n  ]\n}\n");
}

#[test]
fn the_run_length_and_targets_are_read_from_the_workflow_text() {
    let workflow = "jobs:\n  fuzz:\n    strategy:\n      matrix:\n        target: [parse_yaml, parse_json, ]\n    steps:\n      - run: cargo fuzz run ${{ matrix.target }} -- -max_total_time=3600 -rss_limit_mb=2048\n";
    assert_eq!(nightly_limits(workflow), (Some("3600".to_string()), Some(2)));
    assert_eq!(nightly_limits("target: [a, b, c] target: [d]"), (None, Some(3)));
    assert_eq!(nightly_limits("-max_total_time=x target: [ , \t]"), (None, Some(0)));
    assert_eq!(nightly_limits("-max_total_time=15s"), (Some("15".to_string()), None));
}

/// A small repository, as a list of directories and files, walked as the
/// report's caller walks one: skipped directories and directories holding a
/// fetch receipt are not entered; every other file becomes an entry.
fn walked_report() -> String {
    let dirs = ["crates", "crates/core-cst", "crates/core-cst/src", "target", "target/debug", "corpora", "corpora/sources",
        "corpora/helm", "corpora/helm/files", ".git"];
    let files = [
        ("crates/core-cst/src/lib.rs", 120u64),
        ("crates/core-cst/Cargo.toml", 40),
        ("target/debug/build.log", 9),
        ("corpora/sources/helm-charts.sources", 300),
        ("corpora/helm/MANIFEST.tsv", 12),
        ("corpora/helm/files/chart.yaml", 77),
        (".git/HEAD", 21),
        ("README.md", 10),
    ];
    let fetched: Vec<&str> = files
        .iter()
        .filter(|(p, _)| p.rsplit('/').next() == Some(fetch_receipt()))
        .map(|(p, _)| p.rsplit_once('/').map_or("", |(d, _)| d))
        .collect();
    let kept = |path: &str| {
        let parts: Vec<&str> = path.split('/').collect();
        let mut prefix = String::new();
        for part in &parts[..parts.len() - 1] {
            if is_skipped_dir(part) {
                return false;
            }
            if !prefix.is_empty() {
                prefix.push('/');
            }
            prefix.push_str(part);
            if fetched.contains(&prefix.as_str()) {
                return false;
            }
        }
        true
    };
    assert!(dirs.iter().all(|d| !d.is_empty()));
    let extra: Vec<(String, u64)> = (0..24).rev().map(|i| (format!("crates/core-formats/src/part_{i:02}.rs"), 64)).collect();
    let files: Vec<(&str, u64)> = files.iter().copied().chain(extra.iter().map(|(p, l)| (p.as_str(), *l))).collect();
    let entries: Vec<Entry> = files
        .iter()
        .filter(|(p, _)| kept(p))
        .map(|(p, len)| Entry { path: relative("/repo", &format!("/repo/{p}")), len: *len, digest: "00".repeat(32) })
        .collect();
    render_entries(entries)
}

#[test]
fn report_two_runs_produce_identical_bytes() {
    assert_eq!(walked_report(), walked_report());
}

#[test]
fn the_report_contains_no_wall_clock_field() {
    let out = walked_report();
    for banned in ["mtime", "ctime", "modified", "timestamp", "generated_at"] {
        assert!(!out.contains(banned), "wall-clock-derived field `{banned}` leaked into the report");
    }
}

#[test]
fn paths_are_slash_separated_everywhere() {
    let out = walked_report();
    assert!(!out.contains('\\'));
    assert!(out.contains("crates/core-cst/src/lib.rs"));
}

#[test]
fn build_output_is_not_reported() {
    let out = walked_report();
    for skipped in [".git", "target", "node_modules", ".venv", "__pycache__"] {
        assert!(is_skipped_dir(skipped));
        assert!(!out.contains(&format!("\"{skipped}/")), "`{skipped}` leaked into the report");
    }
}

#[test]
fn fetched_corpus_content_is_not_reported() {
    let out = walked_report();
    assert!(!out.contains("/files/"));
    assert!(!out.contains("MANIFEST.tsv"));
    assert!(out.contains("corpora/sources/helm-charts.sources"));
}

#[test]
fn file_entries_are_sorted_byte_wise() {
    let out = walked_report();
    let paths: Vec<&str> = out
        .lines()
        .filter_map(|l| l.split("\"path\": \"").nth(1))
        .filter_map(|l| l.split('"').next())
        .collect();
    let mut sorted = paths.clone();
    sorted.sort_by(|a, b| a.as_bytes().cmp(b.as_bytes()));
    assert_eq!(paths, sorted, "report ordering is not byte-wise sorted");
    assert!(paths.len() > 20, "report looks empty: {} files", paths.len());
}
