use nv::parser::yaml::{parse, parse_comments, remove_key, set_value, yaml_scalar};
use nv::parser::ParsedPair;

#[test]
fn parses_flat_yaml() {
    let content = "# cfg\nFOO: bar\nBAZ: \"q u x\"\n";
    let pairs = parse(content);
    assert_eq!(pairs.len(), 2);
    assert_eq!(pairs[0], ParsedPair { key: "FOO".into(), value: "bar".into() });
    assert_eq!(pairs[1], ParsedPair { key: "BAZ".into(), value: "q u x".into() });
}

#[test]
fn parses_k8s_manifest() {
    let content = "apiVersion: v1\nkind: ConfigMap\ndata:\n  FOO: bar\n  BAZ: qux\n";
    let pairs = parse(content);
    assert_eq!(pairs.len(), 2);
    assert_eq!(pairs[0], ParsedPair { key: "FOO".into(), value: "bar".into() });
    assert_eq!(pairs[1], ParsedPair { key: "BAZ".into(), value: "qux".into() });
}

#[test]
fn edits_flat_in_place() {
    let content = "# top\nFOO: old\nBAR: keep\n";
    let out = set_value(content, "FOO", "new");
    assert_eq!(out, "# top\nFOO: new\nBAR: keep\n");
}

#[test]
fn appends_flat_missing_key() {
    let out = set_value("FOO: bar\n", "NEW", "value");
    assert_eq!(out, "FOO: bar\nNEW: value\n");
}

#[test]
fn edits_k8s_child_preserving_indent_and_siblings() {
    let content = "kind: ConfigMap\ndata:\n  FOO: old\n  BAR: keep\n";
    let out = set_value(content, "FOO", "new");
    assert_eq!(out, "kind: ConfigMap\ndata:\n  FOO: new\n  BAR: keep\n");
}

#[test]
fn inserts_k8s_child_under_block() {
    let content = "kind: ConfigMap\ndata:\n  FOO: bar\n";
    let out = set_value(content, "NEW", "value");
    assert_eq!(out, "kind: ConfigMap\ndata:\n  FOO: bar\n  NEW: value\n");
}

#[test]
fn prefers_stringdata_block_for_new_key() {
    let content = "kind: Secret\ndata:\n  A: x\nstringData:\n  B: y\n";
    let out = set_value(content, "NEW", "value");
    assert_eq!(out, "kind: Secret\ndata:\n  A: x\nstringData:\n  B: y\n  NEW: value\n");
}

#[test]
fn empty_value_quoted() {
    let out = set_value("data:\n  FOO: old\n", "FOO", "");
    assert_eq!(out, "data:\n  FOO: \"\"\n");
}

#[test]
fn quotes_ambiguous_scalars() {
    assert_eq!(yaml_scalar("true"), "\"true\"");
    assert_eq!(yaml_scalar("123"), "\"123\"");
    assert_eq!(yaml_scalar("a: b"), "\"a: b\"");
    assert_eq!(yaml_scalar("plain"), "plain");
}

#[test]
fn comments_flat_block_and_inline() {
    let content = "# DB connection\nDATABASE_URL: postgres://x # prod\nFOO: bar\n";
    let comments = parse_comments(content);
    assert_eq!(comments.len(), 1);
    assert_eq!(comments[0].key, "DATABASE_URL");
    assert_eq!(comments[0].comment, "DB connection prod");
    assert_eq!(comments[0].lines, vec!["DB connection", "prod"]);
}

#[test]
fn comments_flat_header_not_attached() {
    let content = "# Auth service\nA: 1\nB: 2\n";
    let comments = parse_comments(content);
    assert_eq!(comments.len(), 1);
    assert_eq!(comments[0].key, "A");
}

#[test]
fn comments_flat_blank_line_breaks_block() {
    let content = "# orphan\n\nA: 1\n";
    let comments = parse_comments(content);
    assert!(comments.is_empty());
}

#[test]
fn comments_k8s_child_block() {
    let content = "kind: ConfigMap\ndata:\n  # DB config\n  DATABASE_URL: x # prod\n  FOO: bar\n";
    let comments = parse_comments(content);
    assert_eq!(comments.len(), 1);
    assert_eq!(comments[0].key, "DATABASE_URL");
    assert_eq!(comments[0].comment, "DB config prod");
    assert_eq!(comments[0].lines, vec!["DB config", "prod"]);
}

#[test]
fn comments_k8s_header_ignored() {
    let content = "# Auth env\nkind: ConfigMap\ndata:\n  A: 1\n";
    let comments = parse_comments(content);
    assert!(comments.is_empty());
}

#[test]
fn yaml_scalar_escapes_quotes_when_quoting() {
    assert_eq!(yaml_scalar(""), "\"\"");
    assert_eq!(yaml_scalar("- a \"b\""), "\"- a \\\"b\\\"\"");
    assert_eq!(yaml_scalar(" lead"), "\" lead\"");
    assert_eq!(yaml_scalar("No"), "\"No\"");
}

#[test]
fn yaml_set_then_parse_reads_back_the_value() {
    let out = set_value("kind: Secret\nstringData:\n  A: x\n", "A", "yes");
    let pairs = parse(&out);
    assert_eq!(pairs, vec![ParsedPair { key: "A".into(), value: "yes".into() }]);
}

#[test]
fn remove_key_drops_the_child_line() {
    let out = remove_key("data:\n  A: 1\n  B: 2\n", "A");
    assert_eq!(out, "data:\n  B: 2\n");
}

#[test]
fn set_in_manifest_keeps_every_other_line() {
    let content = "apiVersion: v1\nkind: Secret\n# keys\nstringData:\n  A: x # a\n\n  B: y\nmetadata:\n  name: s\n";
    let out = set_value(content, "C", "z");
    assert_eq!(
        out,
        "apiVersion: v1\nkind: Secret\n# keys\nstringData:\n  A: x # a\n\n  B: y\n  C: z\nmetadata:\n  name: s\n"
    );
    let pairs = parse(&out);
    assert_eq!(pairs[2], ParsedPair { key: "C".into(), value: "z".into() });
}

#[test]
fn set_in_flat_mapping_reads_back_quoted_value() {
    let out = set_value("a: 1\nb: 2\n", "b", "yes");
    assert_eq!(out, "a: 1\nb: \"yes\"\n");
    let pairs = parse(&out);
    assert_eq!(pairs[1], ParsedPair { key: "b".into(), value: "yes".into() });
}

#[test]
fn remove_from_flat_mapping_keeps_comments() {
    let out = remove_key("# head\na: 1\n\nb: 2\n", "a");
    assert_eq!(out, "# head\n\nb: 2\n");
}

#[test]
fn remove_absent_yaml_key_returns_content_unchanged() {
    assert_eq!(remove_key("", "K"), "");
    assert_eq!(remove_key("a: 1", "K"), "a: 1");
}
