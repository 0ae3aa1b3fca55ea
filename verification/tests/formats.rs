use lib::cst::Span;
use lib::format::{Format, Json, Yaml};
use lib::report::{Diagnostic, ParseReport};

#[test]
fn parse_returns_rather_than_panicking_on_hostile_input() {
    for hostile in [
        &b""[..],
        b"\xff\xfe\x00",
        b"{{ .Values.image | quote }}",
        b"a: &x\n  <<: *x\n",
        b"\x00\x01\x02",
        b"[[[[[[[[[[",
    ] {
        let _ = Yaml.parse(hostile);
        let _ = Json.parse(hostile);
    }
}

#[test]
fn a_report_always_carries_a_diagnostic() {
    let empty = ParseReport::new(Vec::new());
    assert_eq!(empty.diagnostics().len(), 1);
    assert!(empty.render().contains("bug in the parser"));
}

#[test]
fn reports_render_with_byte_offsets() {
    let report = ParseReport::new(vec![Diagnostic::new(
        Span { start: 12, end: 19 },
        "unterminated quoted scalar",
    )]);
    assert_eq!(report.render(), "bytes 12..19: unterminated quoted scalar");
}

#[test]
fn format_identity_is_stable() {
    assert_eq!(Yaml.name(), "yaml");
    assert_eq!(Yaml.extensions(), &["yaml", "yml"]);
    assert_eq!(Json.name(), "json");
    assert_eq!(Json.extensions(), &["json"]);
}

#[test]
fn serialize_gives_back_what_parse_read() {
    let input = b"a: 1\n# c\n";
    let cst = Yaml.parse(input).expect("parses");
    assert_eq!(Yaml.serialize(&cst), input);
}

#[test]
fn a_report_renders_one_line_per_diagnostic() {
    let report = ParseReport::new(vec![
        Diagnostic::new(Span { start: 0, end: 1 }, "first"),
        Diagnostic::new(Span { start: 2, end: 3 }, "second"),
    ]);
    assert_eq!(report.render(), "bytes 0..1: first\nbytes 2..3: second");
    let stub = ParseReport::not_implemented("toml");
    assert!(stub.render().starts_with("bytes 0..0: `toml` has no parser yet"));
}
