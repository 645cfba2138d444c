use nv::color::ColorConfig;
use nv::compare::{diff_label, diff_pairs, peer_kinds, DiffItem};
use nv::context::{build_skip_files, matches_skip_pattern};
use nv::model::FileKind;
use nv::parser::ParsedPair;

fn p(key: &str, value: &str) -> ParsedPair {
    ParsedPair { key: key.into(), value: value.into() }
}

fn skip_set(patterns: &[&str]) -> Vec<String> {
    patterns.iter().map(|p| p.to_string()).collect()
}

#[test]
fn test_peer_kinds_dotenv() {
    assert_eq!(peer_kinds(FileKind::Dotenv), vec![FileKind::Dotenv, FileKind::DotenvExample]);
}

#[test]
fn test_peer_kinds_dotenv_example() {
    assert_eq!(
        peer_kinds(FileKind::DotenvExample),
        vec![FileKind::Dotenv, FileKind::DotenvExample]
    );
}

#[test]
fn test_peer_kinds_configmap() {
    assert_eq!(peer_kinds(FileKind::ConfigMap), vec![FileKind::ConfigMap]);
}

#[test]
fn test_peer_kinds_secret() {
    assert_eq!(peer_kinds(FileKind::Secret), vec![FileKind::Secret]);
}

#[test]
fn test_diff_keys_only() {
    let base = vec![p("A", "1"), p("B", "2"), p("C", "3")];
    let peer = vec![p("A", "1"), p("C", "3"), p("D", "4")];
    let diffs = diff_pairs(&base, &peer, false);
    assert_eq!(diffs.len(), 2);
    assert!(diffs.iter().any(|d| matches!(d, DiffItem::Missing { key, .. } if key == "B")));
    assert!(diffs.iter().any(|d| matches!(d, DiffItem::Extra { key, .. } if key == "D")));
    assert!(!diffs.iter().any(|d| matches!(d, DiffItem::Different { .. })));
}

#[test]
fn test_diff_with_values() {
    let base = vec![p("A", "1"), p("B", "2")];
    let peer = vec![p("A", "1"), p("B", "changed"), p("C", "3")];
    let diffs = diff_pairs(&base, &peer, true);
    assert!(diffs.iter().any(|d| matches!(d, DiffItem::Different { key, .. } if key == "B")));
    assert!(!diffs.iter().any(|d| matches!(d, DiffItem::Missing { key, .. } if key == "B")));
    assert!(!diffs.iter().any(|d| matches!(d, DiffItem::Extra { key, .. } if key == "B")));
    assert!(diffs.iter().any(|d| matches!(d, DiffItem::Extra { key, .. } if key == "C")));
}

#[test]
fn test_diff_empty_base() {
    let base: Vec<ParsedPair> = vec![];
    let peer = vec![p("A", "1")];
    let diffs = diff_pairs(&base, &peer, false);
    assert_eq!(diffs.len(), 1);
    assert!(matches!(diffs[0], DiffItem::Extra { ref key, .. } if key == "A"));
}

#[test]
fn test_diff_empty_peer() {
    let base = vec![p("A", "1")];
    let peer: Vec<ParsedPair> = vec![];
    let diffs = diff_pairs(&base, &peer, false);
    assert_eq!(diffs.len(), 1);
    assert!(matches!(diffs[0], DiffItem::Missing { ref key, .. } if key == "A"));
}

#[test]
fn test_diff_identical_files() {
    let base = vec![p("A", "1")];
    let peer = vec![p("A", "1")];
    let diffs = diff_pairs(&base, &peer, true);
    assert!(diffs.is_empty());
}

#[test]
fn test_diff_label_no_color() {
    let colors = ColorConfig::default();
    let label = diff_label("-", "MY_KEY", "my_value", colors.removed, &colors, false);
    assert_eq!(label, "- MY_KEY = my_value");
}

#[test]
fn test_diff_label_prefix_color() {
    let colors = ColorConfig::default();
    let label = diff_label("+", "K", "v", colors.added, &colors, true);
    assert!(label.starts_with("\x1b["));
    assert!(label.contains("+"));
    assert!(label.contains("K = "));
    assert!(label.contains("v"));
    assert!(label.ends_with("\x1b[0m"));
}

#[test]
fn test_matches_skip_pattern_exact_relative_path() {
    let skip = skip_set(&["docker/.env"]);
    assert!(matches_skip_pattern("docker/.env", ".env", &skip));
    assert!(!matches_skip_pattern("docker/.env.example", ".env.example", &skip));
}

#[test]
fn test_matches_skip_pattern_file_name() {
    let skip = skip_set(&["custom.env"]);
    assert!(matches_skip_pattern("docker/custom.env", "custom.env", &skip));
    assert!(!matches_skip_pattern("docker/other.env", "other.env", &skip));
}

#[test]
fn test_matches_skip_pattern_glob_double_star() {
    let skip = skip_set(&["docker/**/*.env*"]);
    assert!(matches_skip_pattern("docker/app/.env.example", ".env.example", &skip));
    assert!(matches_skip_pattern("docker/.env", ".env", &skip));
    assert!(!matches_skip_pattern("billing/.env", ".env", &skip));
}

#[test]
fn test_matches_skip_pattern_single_glob() {
    let skip = skip_set(&["*.test.env"]);
    assert!(matches_skip_pattern("auth.test.env", "auth.test.env", &skip));
    assert!(matches_skip_pattern("docker/auth.test.env", "auth.test.env", &skip));
    assert!(!matches_skip_pattern("docker/app.env", "app.env", &skip));
}

#[test]
fn test_build_skip_files_empty_without_config() {
    let skip = build_skip_files(&None, &vec!["docker/.env".to_string()]);
    assert!(skip.is_empty());
}

#[test]
fn diff_reports_each_missing_key_once() {
    let base = vec![p("A", "1"), p("A", "2")];
    let peer: Vec<ParsedPair> = vec![];
    let diffs = diff_pairs(&base, &peer, false);
    assert_eq!(diffs.len(), 1);
}
