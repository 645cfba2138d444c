use std::path::PathBuf;

use nv::model::{EnvKey, FileKind};
use nv::search::{distinct_keys, search_exact, search_glob};

fn key(service: &str, key: &str) -> EnvKey {
    EnvKey {
        service: service.into(),
        file_display: ".env".into(),
        file_kind: FileKind::Dotenv,
        file_path: PathBuf::from("/tmp/.env"),
        key: key.into(),
        value: "v".into(),
    }
}

#[test]
fn distinct_keys_dedups() {
    let index = vec![key("auth", "SHARED"), key("billing", "SHARED"), key("auth", "X")];
    assert_eq!(distinct_keys(&index), vec!["SHARED".to_string(), "X".to_string()]);
}

#[test]
fn distinct_keys_are_sorted() {
    let index = vec![key("a", "ZED"), key("a", "ALPHA"), key("b", "MID")];
    assert_eq!(distinct_keys(&index), vec!["ALPHA".to_string(), "MID".to_string(), "ZED".to_string()]);
}

#[test]
fn exact_matches_whole_key() {
    let index = vec![
        key("auth", "DATABASE_URL"),
        key("billing", "API_DATABASE_URL"),
        key("billing", "API_KEY"),
    ];
    let results = search_exact(&index, "DATABASE_URL");
    assert_eq!(results.len(), 1);
    assert_eq!(results[0].key, "DATABASE_URL");
}

#[test]
fn exact_is_case_insensitive() {
    let index = vec![key("auth", "DATABASE_URL"), key("auth", "API_KEY")];
    let results = search_exact(&index, "database_url");
    assert_eq!(results.len(), 1);
    assert_eq!(results[0].key, "DATABASE_URL");
}

#[test]
fn exact_does_not_substring_match() {
    let index = vec![key("auth", "DATABASE_URL")];
    assert!(search_exact(&index, "URL").is_empty());
}

#[test]
fn exact_empty_query_returns_all() {
    let index = vec![key("auth", "A"), key("auth", "B")];
    assert_eq!(search_exact(&index, "").len(), 2);
}

#[test]
fn glob_matches_prefix() {
    let index = vec![key("auth", "DB_HOST"), key("auth", "DB_PORT"), key("billing", "REDIS_URL")];
    let results = search_glob(&index, "DB_*").unwrap();
    let keys: Vec<&str> = results.iter().map(|k| k.key.as_str()).collect();
    assert_eq!(keys, vec!["DB_HOST", "DB_PORT"]);
}

#[test]
fn glob_matches_suffix() {
    let index = vec![key("auth", "DATABASE_URL"), key("auth", "API_KEY")];
    let results = search_glob(&index, "*_URL").unwrap();
    assert_eq!(results.len(), 1);
    assert_eq!(results[0].key, "DATABASE_URL");
}

#[test]
fn glob_is_case_insensitive() {
    let index = vec![key("auth", "DB_HOST"), key("auth", "REDIS_URL")];
    let results = search_glob(&index, "db_*").unwrap();
    assert_eq!(results.len(), 1);
    assert_eq!(results[0].key, "DB_HOST");
}

#[test]
fn glob_star_matches_all() {
    let index = vec![key("auth", "DB_HOST"), key("auth", "REDIS_URL")];
    assert_eq!(search_glob(&index, "*").unwrap().len(), 2);
}

#[test]
fn glob_empty_query_returns_all() {
    let index = vec![key("auth", "A"), key("auth", "B")];
    assert_eq!(search_glob(&index, "").unwrap().len(), 2);
}

#[test]
fn glob_invalid_pattern_errors() {
    let index = vec![key("auth", "A")];
    let err = search_glob(&index, "[").unwrap_err();
    assert!(err.message().starts_with("invalid pattern '['"));
}
