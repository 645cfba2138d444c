use std::path::PathBuf;

use nv::color::ColorConfig;
use nv::display::{grouped_tree, render_tree};
use nv::model::{EnvKey, FileKind};
use nv::search::{fuzzy_strings, result_entries, search};

fn make_key(service: &str, file_display: &str, key: &str, value: &str) -> EnvKey {
    EnvKey {
        service: service.into(),
        file_display: file_display.into(),
        file_kind: FileKind::Dotenv,
        file_path: PathBuf::from("/tmp/.env"),
        key: key.into(),
        value: value.into(),
    }
}

fn hierarchical_output(refs: &Vec<&EnvKey>, colors: &ColorConfig, use_color: bool) -> String {
    let entries = result_entries(refs, colors, use_color);
    render_tree(&grouped_tree(&entries, true), colors, use_color, true)
}

#[test]
fn groups_by_service() {
    let keys = vec![make_key("auth", ".env", "DB_URL", "postgres://..."), make_key("billing", ".env", "API_KEY", "sk-...")];
    let refs: Vec<&EnvKey> = keys.iter().collect();
    let out = hierarchical_output(&refs, &ColorConfig::default(), false);
    assert!(out.contains("auth/ (1)"));
    assert!(out.contains("billing/ (1)"));
}

#[test]
fn groups_by_folder() {
    let keys = vec![make_key("auth", "src/.env", "DB_URL", "postgres://..."), make_key("auth", "docker/.env", "API_KEY", "sk-...")];
    let refs: Vec<&EnvKey> = keys.iter().collect();
    let out = hierarchical_output(&refs, &ColorConfig::default(), false);
    assert!(out.contains("auth/ (2)"));
    assert!(out.contains("├── docker/.env (1)"));
    assert!(out.contains("└── src/.env (1)"));
}

#[test]
fn handles_duplicate_keys() {
    let keys = vec![make_key("auth", ".env", "DB_URL", "postgres://..."), make_key("auth", ".env", "DB_URL", "mysql://...")];
    let refs: Vec<&EnvKey> = keys.iter().collect();
    let out = hierarchical_output(&refs, &ColorConfig::default(), false);
    assert!(out.contains(".env (2)"));
    assert!(out.contains("DB_URL = postgres://..."));
    assert!(out.contains("DB_URL = mysql://..."));
}

fn key(service: &str, key: &str) -> EnvKey {
    make_key(service, ".env", key, "v")
}

#[test]
fn empty_query_returns_all() {
    let index = vec![key("auth", "DB_URL"), key("billing", "API_KEY")];
    assert_eq!(search(&index, "").len(), 2);
}

#[test]
fn fuzzy_matches_key_name() {
    let index = vec![key("auth", "DATABASE_URL"), key("billing", "API_KEY")];
    let results = search(&index, "dburl");
    assert!(!results.is_empty());
    assert_eq!(results[0].key, "DATABASE_URL");
}

#[test]
fn fuzzy_search_keeps_identical_entries_apart() {
    let index = vec![key("auth", "DB_URL"), key("auth", "DB_URL")];
    let results = search(&index, "dburl");
    assert_eq!(results.len(), 2);
    assert!(!std::ptr::eq(results[0], results[1]));
}

#[test]
fn fuzzy_strings_filters_and_keeps_blank() {
    let items = vec!["DATABASE_URL".to_string(), "PORT".to_string()];
    assert_eq!(fuzzy_strings(&items, "  "), items);
    assert_eq!(fuzzy_strings(&items, "dburl"), vec!["DATABASE_URL".to_string()]);
}

