use std::path::{Path, PathBuf};

use nv::findings::Finding;
use nv::model::{EnvFile, FileKind};
use nv::parser::ParsedPair;
use nv::unused::{
    build_skip_dirs, build_skip_files, checked_keys, distinct_keys_of, is_word_boundary, scan_line,
    scan_lines, text_hint, unused_findings, KeyMatcher,
};

fn is_probably_text(path: &Path) -> bool {
    text_hint(path.to_str().unwrap()).unwrap_or(false)
}

fn has(v: &[String], s: &str) -> bool {
    v.iter().any(|x| x == s)
}

#[test]
fn word_boundary_exact_match() {
    assert!(is_word_boundary("DB_HOST=localhost", 0, 7));
    assert!(!is_word_boundary("DB_HOST=localhost", 0, 2));
    assert!(!is_word_boundary("DB_HOST=localhost", 3, 7));
}

#[test]
fn word_boundary_with_special_chars() {
    assert!(is_word_boundary("export API_KEY=xxx", 7, 14));
    assert!(is_word_boundary("API_KEY: value", 0, 7));
    assert!(is_word_boundary("# API_KEY comment", 2, 9));
}

#[test]
fn word_boundary_underscore() {
    assert!(is_word_boundary("FOO_BAR=value", 0, 7));
    assert!(!is_word_boundary("FOO_BAR_BAZ=value", 0, 7));
}

#[test]
fn word_boundary_at_edges() {
    assert!(is_word_boundary("DB_HOST=", 0, 7));
    assert!(is_word_boundary("=DB_HOST", 1, 8));
    assert!(is_word_boundary(" DB_HOST ", 1, 8));
}

#[test]
fn build_skip_dirs_merges_defaults() {
    let config_skip = vec!["dist".to_string(), "build".to_string()];
    let skip = build_skip_dirs(&config_skip);
    assert!(has(&skip, ".git"));
    assert!(has(&skip, "target"));
    assert!(has(&skip, "vendor"));
    assert!(has(&skip, "node_modules"));
    assert!(has(&skip, "logs"));
    assert!(has(&skip, "dist"));
    assert!(has(&skip, "build"));
}

#[test]
fn build_skip_files_merges_defaults() {
    let config_skip = vec!["custom.js".to_string(), "test.ts".to_string()];
    let skip = build_skip_files(&config_skip);
    assert!(has(&skip, "custom.js"));
    assert!(has(&skip, "test.ts"));
    assert_eq!(skip.len(), 2);
}

#[test]
fn skip_dirs_hold_no_duplicates() {
    let skip = build_skip_dirs(&vec!["target".to_string(), "dist".to_string(), "dist".to_string()]);
    assert_eq!(skip.len(), 6);
}

#[test]
fn is_probably_text_known_extensions() {
    assert!(is_probably_text(Path::new("src/main.rs")));
    assert!(is_probably_text(Path::new("config.toml")));
    assert!(!is_probably_text(Path::new("lib.so")));
    assert!(!is_probably_text(Path::new("image.png")));
}

#[test]
fn text_hint_by_name() {
    assert_eq!(text_hint("docker/Dockerfile"), Some(true));
    assert_eq!(text_hint("Makefile.am"), Some(true));
    assert_eq!(text_hint("README.MD"), Some(true));
    assert_eq!(text_hint("data.bin"), Some(false));
    assert_eq!(text_hint(".gitignore"), None);
    assert_eq!(text_hint("noext"), None);
    assert_eq!(text_hint("weird.xyz"), None);
}

fn keys(v: &[&str]) -> Vec<String> {
    v.iter().map(|s| s.to_string()).collect()
}

#[test]
fn scan_clears_only_whole_word_matches() {
    let m = KeyMatcher::new(&keys(&["DB_HOST", "DB", "API_KEY"])).unwrap();
    let mut remaining = vec![true, true, true];
    scan_line(&m, "let h = env(\"DB_HOST\");", &mut remaining);
    assert_eq!(remaining, vec![false, true, true]);
    scan_line(&m, "MY_API_KEY_X", &mut remaining);
    assert_eq!(remaining, vec![false, true, true]);
    scan_lines(&m, &keys(&["x = API_KEY", "DB"]), &mut remaining);
    assert_eq!(remaining, vec![false, false, false]);
}

fn env_file(display: &str) -> EnvFile {
    EnvFile { kind: FileKind::Dotenv, path: PathBuf::from("/s/.env"), display: display.into() }
}

#[test]
fn only_keys_with_values_are_checked() {
    let pairs = vec![
        ParsedPair { key: "A".into(), value: "1".into() },
        ParsedPair { key: "B".into(), value: "".into() },
    ];
    let fs = checked_keys("auth", &env_file(".env"), &pairs);
    assert_eq!(fs.len(), 1);
    assert_eq!(fs[0].key, "A");
    assert_eq!(fs[0].service, "auth");
}

#[test]
fn unused_keeps_keys_never_found() {
    let f = |k: &str| Finding { service: "s".into(), file_display: ".env".into(), key: k.into(), value: "v".into() };
    let fs = vec![f("A"), f("B"), f("A")];
    let ks = distinct_keys_of(&fs);
    assert_eq!(ks, keys(&["A", "B"]));
    let out = unused_findings(&fs, &ks, &vec![true, false]);
    let names: Vec<&str> = out.iter().map(|x| x.key.as_str()).collect();
    assert_eq!(names, vec!["A", "A"]);
}

#[test]
fn matcher_builds_for_small_key_sets() {
    assert_eq!(KeyMatcher::new(&Vec::new()).unwrap().len(), 0);
    let many: Vec<String> = (0..500).map(|i| format!("KEY_{i}")).collect();
    assert_eq!(KeyMatcher::new(&many).unwrap().len(), 500);
}

#[test]
fn head_with_a_nul_byte_is_binary() {
    assert!(nv::unused::head_is_text(b"KEY=value\n"));
    assert!(!nv::unused::head_is_text(&[0x50, 0x4b, 0x00, 0x01]));
    assert!(nv::unused::head_is_text(&[]));
}
