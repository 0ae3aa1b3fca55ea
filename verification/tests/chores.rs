use lib::alloc_profile::{compare, render_profile, Totals};
use lib::conformance::Verdict;
use lib::coverage::{outcome_of, view_outcome, Coverage, ViewOutcome};
use lib::differential::{check_file, finish as differential_finish, mutate_json, mutate_yaml, report as differential_report, Tally};
use lib::format::{Format, Json, Yaml};
use lib::ranking::rank;
use lib::k1::{claim, finish as k1_finish, record, record_unclaimed, report as k1_report, Claim, Corpus, FormatTally};
use lib::xtask::{compare_runs, contains_token, difference_at, explain, verdict, verdict_of};

#[test]
fn profile_rows_ignore_comments_and_blank_lines() {
    let measured = "#! schema = 1\n# a comment\njson\t3\t10\t200\n\n  yaml\t4\t20\t300  \n";
    let baseline = "# other comment\njson\t3\t10\t200\nyaml\t4\t20\t300\n";
    assert_eq!(
        compare(measured, baseline),
        Ok("allocation profile matches the baseline exactly\n  json\t3\t10\t200\n  yaml\t4\t20\t300\n".to_string())
    );
}

#[test]
fn a_changed_profile_lists_both_sides() {
    let measured = "json\t3\t11\t200\n";
    let baseline = "json\t3\t10\t200\n";
    let err = compare(measured, baseline).unwrap_err();
    assert!(err.starts_with("ALLOCATION PROFILE CHANGED\n\nThis gate compares for equality"));
    assert!(err.contains("  expected (baseline):\n    json\t3\t10\t200\n  measured:\n    json\t3\t11\t200\n"));
    assert!(err.ends_with("and golden-guard covers this path.\n"));
}

#[test]
fn profile_table_is_tab_separated() {
    let totals = vec![
        Totals { name: "json".to_string(), cases: 1, allocs: 2, bytes: 3 },
        Totals { name: "yaml".to_string(), cases: 4, allocs: 5, bytes: 6 },
    ];
    assert_eq!(
        render_profile(&totals),
        "#! schema = 1\n# Allocations for parse+serialize over the committed golden cases.\n# format\tcases\tallocations\tbytes\njson\t1\t2\t3\nyaml\t4\t5\t6\n"
    );
}

#[test]
fn yaml_mutation_appends_a_probe_line() {
    assert_eq!(mutate_yaml(b"a: 1\n"), Some(b"a: 1\nzzz_konflux_probe: 1\n".to_vec()));
    assert_eq!(mutate_yaml(b"a: 1"), None);
    assert_eq!(mutate_yaml(b""), None);
}

#[test]
fn json_mutation_inserts_a_first_member() {
    assert_eq!(mutate_json(b"{\"a\": 1}"), Some(b"{\"zzz_konflux_probe\": 1,\"a\": 1}".to_vec()));
    assert_eq!(mutate_json(b"{ }"), Some(b"{\"zzz_konflux_probe\": 1 }".to_vec()));
    assert_eq!(mutate_json("{\u{a0}}".as_bytes()), Some("{\"zzz_konflux_probe\": 1\u{a0}}".as_bytes().to_vec()));
    assert_eq!(mutate_json(b"[1, {}]"), Some(b"[1, {\"zzz_konflux_probe\": 1}]".to_vec()));
    assert_eq!(mutate_json(b"[1]"), None);
    assert_eq!(mutate_json(&[0x7b, 0xff, 0x7d]), None);
}

#[test]
fn differential_tallies_each_file_once() {
    let mut t = Tally::new();
    check_file("json", b"{\"a\": 1}", "x.json", &mut t);
    assert_eq!(t.checked, 1);
    assert!(t.lost.is_empty(), "the added key is noticed: {:?}", t.lost);
    assert!(t.unstable.is_empty());
    check_file("json", b"[1]", "y.json", &mut t);
    assert_eq!(t.skipped_not_a_mapping, 1);
    check_file("json", b"{", "z.json", &mut t);
    check_file("txt", b"{}", "w.txt", &mut t);
    assert_eq!(
        (t.checked, t.skipped_unmodelled, t.skipped_not_a_mapping, t.skipped_mutation_unreadable, t.skipped_mutation_changed_shape),
        (1, 0, 1, 0, 0)
    );
}

#[test]
fn differential_report_and_verdict() {
    let mut t = Tally::new();
    t.checked = 2;
    t.skipped_unmodelled = 1;
    let out = differential_report(&t);
    assert_eq!(
        out,
        "differential \u{2014} konflux M2\n\n  2 file(s) checked: diffed against themselves, then against a known added key\n  skipped: 1 unmodelled, 0 not mapping-rooted, 0 unreadable once mutated, 0 reshaped by the mutation\n\n  The skips are printed because a runner that quietly narrows its own\n  corpus is reporting on a sample it chose.\n"
    );
    assert_eq!(differential_finish(out.clone(), &t), Ok(out.clone()));
    t.lost.push("a.yaml".to_string());
    t.lost.push("b.yaml".to_string());
    let err = differential_finish("R".to_string(), &t).unwrap_err();
    assert!(err.starts_with("R\nLOST EDIT: 2 file(s) where an added top-level key produced no\nsemantic change:\n    a.yaml\n    b.yaml\n\n"));
    t.unstable.push("c.json".to_string());
    let err = differential_finish(String::new(), &t).unwrap_err();
    assert!(err.starts_with("\nNOT A FUNCTION OF ITS INPUTS: 1 file(s) differ from themselves:\n    c.json\n\nLOST EDIT: 2"));
}

#[test]
fn differential_lists_at_most_twenty_names() {
    let mut t = Tally::new();
    for i in 0..25 {
        t.lost.push(format!("f{i}"));
    }
    let err = differential_finish(String::new(), &t).unwrap_err();
    assert!(err.contains("LOST EDIT: 25 file(s)"));
    assert!(err.contains("    f19\n\n"));
    assert!(!err.contains("f20"));
}

#[test]
fn k1_claims_by_extension() {
    assert_eq!(claim("yaml"), Some(Claim::Yaml));
    assert_eq!(claim("yml"), Some(Claim::Yaml));
    assert_eq!(claim("json"), Some(Claim::Json));
    assert_eq!(claim("hcl"), None);
    assert_eq!(claim("YAML"), None);
}

#[test]
fn k1_records_round_trips_and_refusals() {
    let mut c = Corpus::new();
    record(&mut c, Claim::Json, b"{\"a\": [1, 2]}\n", "ok.json");
    record(&mut c, Claim::Json, b"{", "bad.json");
    record(&mut c, Claim::Yaml, b"a: 1\n", "ok.yaml");
    record_unclaimed(&mut c);
    let j = c.json.as_ref().unwrap();
    assert_eq!((j.files, j.bytes, j.round_tripped), (2, 15, 1));
    assert_eq!(j.rejected, vec!["bad.json".to_string()]);
    assert!(j.violations.is_empty());
    let y = c.yaml.as_ref().unwrap();
    assert_eq!(y.files, 1);
    assert!(y.violations.is_empty());
    assert_eq!(c.unclaimed, 1);
    let out = k1_report(&c);
    assert!(out.starts_with("K1 over the corpus \u{2014} konflux P1\n  format     files        bytes  round-tripped   rejected\n  --------"));
    assert!(out.contains("\n  json           2           15              1          1\n"));
    assert!(out.contains("\n  TOTAL          3                           "));
    assert!(out.contains("\n\n  1 corpus file(s) are in no format we parse yet (HCL, Phase 2).\n"));
    assert!(out.ends_with("  P1 corpus half: NOT MET \u{2014} needs \u{2265}1000 files in a format\n  konflux parses, and only 3 are.\n"));
    assert_eq!(k1_finish(out.clone(), &c), Ok(out));
}

#[test]
fn k1_violations_block_the_release() {
    let mut c = Corpus::new();
    c.yaml = Some(FormatTally {
        files: 1000,
        bytes: 5,
        round_tripped: 999,
        rejected: Vec::new(),
        violations: vec!["bad.yaml".to_string()],
    });
    let out = k1_report(&c);
    assert!(out.contains("  P1 corpus half: MET \u{2014} 1000 files in a format konflux parses,\n"));
    let err = k1_finish("T".to_string(), &c).unwrap_err();
    assert_eq!(
        err,
        "T\nK1 VIOLATED on 1 corpus file(s):\n  bad.yaml\n\nserialize(parse(x)) != x on real-world input. This is a release\nblocker (MASTER_PLAN \u{a7}4.1 P1), not a statistic. Minimise one, file it\nas a golden case, then fix the parser (\u{a7}3.3)."
    );
}

#[test]
fn runs_are_compared_byte_for_byte() {
    assert_eq!(difference_at(b"abc", b"abd"), 2);
    assert_eq!(difference_at(b"ab", b"abc"), 2);
    assert_eq!(difference_at(b"abc", b"abc"), 3);
    assert_eq!(difference_at(b"", b"x"), 0);
    assert_eq!(
        compare_runs("a.json", "b.json", b"xy", b"xy", "h1", "h1"),
        Ok("identical: a.json == b.json (2 bytes, sha256 h1)\n".to_string())
    );
    let err = compare_runs("a", "b", b"xy", b"xz", "h1", "h2").unwrap_err();
    assert!(err.starts_with("DETERMINISM VIOLATION\n  a: 2 bytes, sha256 h1\n  b: 2 bytes, sha256 h2\n  first difference at byte 1\n\n"));
    assert!(err.ends_with("prove nothing about the code."));
}

#[test]
fn sigils_count_only_as_word_starts() {
    assert!(contains_token("a: &anchor x\n", '&'));
    assert!(contains_token("- *ref\n", '*'));
    assert!(!contains_token("a & b\n", '&'));
    assert!(!contains_token("a*b: 1\n", '*'));
    assert!(!contains_token("*\n", '*'));
    assert!(contains_token("x\n&y", '&'));
}

#[test]
fn conformance_verdict_follows_the_parser() {
    assert_eq!(verdict(&Json, b"{}"), Verdict::Accepted);
    assert_eq!(verdict(&Json, b"{"), Verdict::Rejected);
    assert_eq!(verdict(&Yaml, b"a: 1\n"), Verdict::Accepted);
}

#[test]
fn explain_says_whether_a_file_is_modelled() {
    assert_eq!(explain(b"a: 1\n"), Ok("modelled\n".to_string()));
}

fn hits(bytes: &[u8]) -> Vec<usize> {
    let text = String::from_utf8_lossy(bytes);
    lib::survey::probe_hits(bytes, &text)
        .into_iter()
        .enumerate()
        .filter(|(_, h)| *h)
        .map(|(i, _)| i)
        .collect()
}

#[test]
fn survey_probes_name_their_constructs() {
    let names = lib::survey::probe_names();
    assert_eq!(names.len(), 25);
    assert_eq!(names[0], "anchor");
    assert_eq!(names[24], "long-line");
    assert_eq!(lib::survey::probe_reasons().len(), 25);
}

#[test]
fn survey_probes_find_each_construct() {
    assert_eq!(hits(b"a: b\n"), Vec::<usize>::new());
    assert_eq!(hits(b"a: &x\n"), vec![0]);
    assert_eq!(hits(b"<<: *base\n"), vec![1, 2]);
    assert_eq!(hits(b"a: |\n"), vec![3]);
    assert_eq!(hits(b"a: >-\n"), vec![3]);
    assert_eq!(hits(b"a: [1]\n"), vec![4]);
    assert_eq!(hits(b"a: {{ x }}\n"), vec![4, 5]);
    assert_eq!(hits(b"  # c\n"), vec![6]);
    assert_eq!(hits(b"a: 1 # c\n"), vec![7]);
    assert_eq!(hits(b"---\na: 1\n"), vec![8]);
    assert_eq!(hits(b"%YAML 1.2\n"), vec![9]);
    assert_eq!(hits(b"a: !!str 1\n"), vec![10]);
    assert_eq!(hits(b"a: !Ref x\n"), vec![10]);
    assert_eq!(hits(b"a: 'q'\n"), vec![11]);
    assert_eq!(hits(b"a: \"q\"\n"), vec![12]);
    assert_eq!(hits(b"a:\n"), vec![13]);
    assert_eq!(hits(b"a: b\r\n"), vec![14]);
    assert_eq!(hits(b"a: b\tc\n"), vec![15]);
    assert_eq!(hits(b"a: b \n"), vec![16]);
    assert_eq!(hits(b"a: b"), vec![17]);
    assert_eq!(hits(b"a: b\n\nc: d\n"), vec![18]);
    assert_eq!(hits(&[0xef, 0xbb, 0xbf, b'a', b'\n']), vec![19, 20]);
    assert_eq!(hits("a: \u{e9}\n".as_bytes()), vec![20]);
    assert_eq!(hits(&[b'a', 0xff, b'\n']), vec![20, 21]);
    assert_eq!(hits(b"a: b\n   c: d\n"), vec![22]);
    let deep = format!("{}a: b\n", " ".repeat(16));
    assert_eq!(hits(deep.as_bytes()), vec![23]);
    let long = format!("a: {}\n", "x".repeat(497));
    assert_eq!(hits(long.as_bytes()), vec![24]);
}

#[test]
fn ranking_puts_the_most_frequent_first_and_ties_by_name() {
    let rows = vec![
        ("b".to_string(), 2usize, 'b'),
        ("a".to_string(), 2, 'a'),
        ("c".to_string(), 5, 'c'),
        ("d".to_string(), 1, 'd'),
        ("B".to_string(), 2, 'B'),
    ];
    let order: Vec<char> = rank(rows).into_iter().map(|r| r.2).collect();
    assert_eq!(order, vec!['c', 'B', 'a', 'b', 'd']);
    assert!(rank(Vec::<(String, usize, ())>::new()).is_empty());
}

#[test]
fn coverage_counts_each_outcome_and_keeps_the_first_example() {
    let mut c = Coverage::new();
    c.record(ViewOutcome::Refused("anchors"), "f1");
    c.record(ViewOutcome::Refused("tags"), "f2");
    c.record(ViewOutcome::Refused("tags"), "f3");
    c.record(ViewOutcome::Modelled, "f4");
    c.record(ViewOutcome::Unparsed, "f5");
    c.record(ViewOutcome::Refused("anchors"), "f6");
    c.record(ViewOutcome::Refused("tags"), "f7");
    assert_eq!((c.total, c.modelled, c.unparsed), (7, 1, 1));
    assert_eq!(c.reasons, vec![("anchors".to_string(), 2, "f1".to_string()), ("tags".to_string(), 3, "f2".to_string())]);
    assert_eq!(c.ranked_reasons(), vec![("tags".to_string(), 3, "f2".to_string()), ("anchors".to_string(), 2, "f1".to_string())]);
}

#[test]
fn viewing_a_file_says_whether_it_parsed_and_was_modelled() {
    assert_eq!(view_outcome(&Json, b"{\"a\": 1}"), ViewOutcome::Modelled);
    assert_eq!(view_outcome(&Json, b"{"), ViewOutcome::Unparsed);
    assert_eq!(view_outcome(&Json, b""), ViewOutcome::Unparsed);
}

#[test]
fn a_view_outcome_follows_the_parse_and_the_view() {
    assert_eq!(outcome_of(None), ViewOutcome::Unparsed);
    let tree = Json.parse(b"[1]").expect("parses");
    assert_eq!(outcome_of(Some(Json.semantic_view(&tree))), ViewOutcome::Modelled);
}

#[test]
fn a_verdict_follows_the_parse() {
    assert_eq!(verdict_of(&Json.parse(b"{}")), Verdict::Accepted);
    assert_eq!(verdict_of(&Json.parse(b"{")), Verdict::Rejected);
    assert_eq!(verdict(&Json, b"nul"), Verdict::Rejected);
}
