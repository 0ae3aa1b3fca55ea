use lib::cli::{Common, Exit};

#[test]
fn exit_codes_are_the_documented_contract() {
    assert_eq!(Exit::Clean.code(), 0);
    assert_eq!(Exit::Finding.code(), 1);
    assert_eq!(Exit::Usage.code(), 2);
    assert_eq!(Exit::Unmodelled.code(), 3);
}

#[test]
fn refusing_is_not_the_same_code_as_finding_something() {
    assert_ne!(Exit::Finding.code(), Exit::Unmodelled.code());
}

#[test]
fn flags_are_recognised_and_positionals_keep_their_order() {
    let parsed = Common::parse(&["--json", "a.yaml", "--check", "b.yaml"]).expect("parses");
    assert!(parsed.json && parsed.check);
    assert_eq!(parsed.positional, ["a.yaml", "b.yaml"]);
}

#[test]
fn a_double_dash_ends_flag_parsing() {
    let parsed = Common::parse(&["--json", "--", "--check"]).expect("parses");
    assert!(parsed.json, "flags before -- still apply");
    assert!(!parsed.check, "after --, it is a path");
    assert_eq!(parsed.positional, ["--check"]);
}

#[test]
fn an_unknown_flag_is_a_usage_error_not_a_filename() {
    let err = Common::parse(&["--jsonn"]).expect_err("unknown flag");
    assert!(err.message.contains("--jsonn"), "{}", err.message);
}

#[test]
fn a_bare_dash_is_a_positional() {
    let parsed = Common::parse(&["-"]).expect("parses");
    assert_eq!(parsed.positional, ["-"]);
}

#[test]
fn help_is_recognised_in_both_spellings() {
    assert!(Common::parse(&["-h"]).expect("parses").help);
    assert!(Common::parse(&["--help"]).expect("parses").help);
    let err = Common::parse(&["-x", "--json"]).expect_err("unknown flag");
    assert_eq!(err.message, "unknown flag `-x`. Pass `--` before a path that starts with a dash.");
}
