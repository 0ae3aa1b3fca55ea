use lib::format::{Format, Json, Yaml};
use lib::semantic::{unescape, SemanticNode};

fn view(src: &str) -> SemanticNode {
    let cst = Json.parse(src.as_bytes()).expect("parses");
    Json.semantic_view(&cst).expect("json has a view")
}

#[test]
fn an_object_becomes_a_mapping_in_source_order() {
    let SemanticNode::Mapping(pairs) = view(r#"{"b": 1, "a": 2}"#) else {
        panic!("expected a mapping");
    };
    let keys: Vec<&str> = pairs.iter().map(|(k, _)| k.as_str()).collect();
    assert_eq!(keys, ["b", "a"], "source order must survive the view");
}

#[test]
fn key_order_does_not_change_the_value() {
    assert!(view(r#"{"a":1,"b":2}"#).same_value(&view(r#"{"b":2,"a":1}"#)));
}

#[test]
fn escape_form_is_spelling_not_meaning() {
    let plain = view("{\"k\": \"/\"}");
    let escaped = view("{\"k\": \"\\/\"}");
    assert!(plain.same_value(&escaped), "same string, different escape form");
    assert_ne!(plain, escaped, "but the source text must still differ");
}

#[test]
fn numbers_are_not_normalised() {
    assert!(!view(r#"{"n": 1.0}"#).same_value(&view(r#"{"n": 1.00}"#)));
}

#[test]
fn nesting_and_arrays_survive() {
    let SemanticNode::Mapping(pairs) = view(r#"{"xs": [1, {"y": null}]}"#) else {
        panic!("expected a mapping");
    };
    let Some((_, SemanticNode::Sequence(items))) = pairs.first() else {
        panic!("expected a sequence");
    };
    assert_eq!(items.len(), 2);
    assert!(matches!(items.get(1), Some(SemanticNode::Mapping(_))));
}

#[test]
fn sequence_order_is_meaning() {
    assert!(!view(r#"{"xs":[1,2]}"#).same_value(&view(r#"{"xs":[2,1]}"#)));
}

fn yaml_view(src: &str) -> SemanticNode {
    let cst = Yaml.parse(src.as_bytes()).expect("parses");
    Yaml.semantic_view(&cst).expect("has a view")
}

fn yaml_refusal(src: &str) -> &'static str {
    let cst = Yaml.parse(src.as_bytes()).expect("parses");
    Yaml.semantic_view(&cst).expect_err("should refuse").reason
}

#[test]
fn indentation_becomes_nesting() {
    let SemanticNode::Mapping(pairs) = yaml_view("spec:\n  replicas: 2\n") else {
        panic!("expected a mapping");
    };
    let Some((key, SemanticNode::Mapping(inner))) = pairs.first() else {
        panic!("expected a nested mapping");
    };
    assert_eq!(key, "spec");
    assert_eq!(inner.len(), 1);
}

#[test]
fn a_dash_list_becomes_a_sequence() {
    let SemanticNode::Mapping(pairs) = yaml_view("xs:\n  - a\n  - b\n") else {
        panic!("expected a mapping");
    };
    let Some((_, SemanticNode::Sequence(items))) = pairs.first() else {
        panic!("expected a sequence");
    };
    assert_eq!(items.len(), 2);
}

#[test]
fn a_sequence_item_continues_across_its_indented_lines() {
    let SemanticNode::Mapping(pairs) =
        yaml_view("containers:\n  - name: web\n    image: nginx:1.25\n")
    else {
        panic!("expected a mapping");
    };
    let Some((_, SemanticNode::Sequence(items))) = pairs.first() else {
        panic!("expected a sequence");
    };
    assert_eq!(items.len(), 1, "the indented line started a second item");
    let Some(SemanticNode::Mapping(entry)) = items.first() else {
        panic!("expected the item to be a mapping");
    };
    let keys: Vec<&str> = entry.iter().map(|(k, _)| k.as_str()).collect();
    assert_eq!(keys, ["name", "image"]);
}

#[test]
fn a_colon_inside_a_value_is_not_the_separator() {
    let SemanticNode::Mapping(pairs) = yaml_view("image: nginx:1.25\n") else {
        panic!("expected a mapping");
    };
    let Some((key, SemanticNode::Scalar(value))) = pairs.first() else {
        panic!("expected a scalar");
    };
    assert_eq!(key, "image");
    assert_eq!(value.value, "nginx:1.25");
}

#[test]
fn quoting_style_is_spelling_not_meaning() {
    let plain = yaml_view("k: web\n");
    let quoted = yaml_view("k: \"web\"\n");
    let single = yaml_view("k: 'web'\n");
    assert!(plain.same_value(&quoted));
    assert!(plain.same_value(&single));
    assert_ne!(plain, quoted, "source text must still differ");
}

#[test]
fn comments_and_blank_lines_are_not_content() {
    assert!(yaml_view("# hi\n\na: 1\n").same_value(&yaml_view("a: 1\n")));
}

#[test]
fn unmodelled_constructs_refuse_and_say_which() {
    for (src, expected) in [
        ("a: {x: 1}\n", "flow collections"),
        ("a: &x 1\n", "anchors and aliases"),
        ("a: !!str 1\n", "tags"),
        ("---\na: 1\n", "multi-document"),
        ("a: |\n  text\n", "block scalars"),
    ] {
        let reason = yaml_refusal(src);
        assert!(
            reason.contains(expected),
            "for {src:?} expected a reason mentioning {expected:?}, got {reason:?}"
        );
    }
}

#[test]
fn a_line_we_cannot_classify_refuses_the_whole_document() {
    let reason = yaml_refusal("a: 1\n{{- if .Values.x }}\nb: 2\n{{- end }}\n");
    assert!(!reason.is_empty(), "a template must not be silently dropped");
}

#[test]
fn unescape_handles_the_awkward_forms() {
    assert_eq!(unescape(r#""a\nb""#), "a\nb");
    assert_eq!(unescape(r#""A""#), "A");
    assert_eq!(unescape(r#""\/""#), "/");
    assert_eq!(unescape(r#""\ud800""#), r"\ud800");
}

#[test]
fn a_zero_indented_sequence_belongs_to_the_key_above_it() {
    let SemanticNode::Mapping(pairs) = yaml_view("items:\n- a\n- b\nnext: 1\n") else {
        panic!("expected a mapping");
    };
    assert_eq!(pairs.len(), 2);
    let Some((key, SemanticNode::Sequence(items))) = pairs.first() else {
        panic!("expected the key to adopt the items");
    };
    assert_eq!(key, "items");
    assert_eq!(items.len(), 2);
}

#[test]
fn text_reports_scalars_and_container_shapes() {
    let v = view(r#"{"a": [1, 2, 3], "b": "x"}"#);
    assert_eq!(v.text(), "{2 keys}");
    let SemanticNode::Mapping(pairs) = v else {
        panic!("expected a mapping");
    };
    assert_eq!(pairs[0].1.text(), "[3 items]");
    assert_eq!(pairs[1].1.text(), "\"x\"");
}

#[test]
fn an_empty_json_document_has_no_view() {
    let cst = lib::json::build(b" ", &lib::json::lex(b" "));
    let u = Json.semantic_view(&cst).expect_err("nothing to view");
    assert_eq!(u.format, "json");
    assert_eq!(u.reason, "the document contains no value");
}

#[test]
fn single_quotes_unescape_doubled_quotes() {
    let SemanticNode::Mapping(pairs) = yaml_view("k: 'it''s'\n") else {
        panic!("expected a mapping");
    };
    let Some((_, SemanticNode::Scalar(s))) = pairs.first() else {
        panic!("expected a scalar");
    };
    assert_eq!(s.text, "'it''s'");
    assert_eq!(s.value, "it's");
}

#[test]
fn meaning_the_same_is_symmetric_on_distinct_keys() {
    let pairs = [
        (r#"{"a":1,"b":[1,{"c":2}]}"#, r#"{"b":[1,{"c":2}],"a":1}"#),
        (r#"{"a":1,"b":2}"#, r#"{"a":1,"c":2}"#),
        (r#"[1,2]"#, r#"[1,2,3]"#),
    ];
    for (x, y) in pairs {
        assert_eq!(view(x).same_value(&view(y)), view(y).same_value(&view(x)), "{x} vs {y}");
    }
}
