use std::path::PathBuf;

use nv::config::Config;
use nv::edit::Target;
use nv::findings::{clean_changes, false_alarm_pairs, finding_entries, leak_findings, leak_pairs, Finding};
use nv::color::ColorConfig;
use nv::model::{EnvFile, FileKind};

fn keys(input: &str) -> Vec<String> {
    leak_pairs(input).into_iter().map(|p| p.key).collect()
}

fn finding(service: &str, file: &str, key: &str, value: &str) -> Finding {
    Finding { service: service.into(), file_display: file.into(), key: key.into(), value: value.into() }
}

#[test]
fn matches_dotenv_secret_keys() {
    let input = "DB_PASSWORD=secret123\nAPI_KEY=sk-test\nLOG_LEVEL=debug\n";
    assert_eq!(keys(input), vec!["DB_PASSWORD", "API_KEY"]);
}

#[test]
fn matches_export_prefix() {
    assert_eq!(keys("export JWT_TOKEN=abc123\n"), vec!["JWT_TOKEN"]);
}

#[test]
fn matches_yaml_syntax() {
    assert_eq!(keys("  DB_PASSWORD: hunter2\n  API_KEY: sk-live\n"), vec!["DB_PASSWORD", "API_KEY"]);
}

#[test]
fn skips_empty_values() {
    assert!(keys("DB_PASSWORD=\nAPI_KEY=\n").is_empty());
}

#[test]
fn skips_unrelated_keys() {
    assert!(keys("LOG_LEVEL=debug\nPORT=8080\nDATABASE_URL=postgres://localhost\n").is_empty());
}

#[test]
fn leak_values_come_from_either_syntax() {
    let pairs = leak_pairs("DB_PASSWORD=hunter2\n  API_KEY: sk-live\n");
    assert_eq!(pairs[0].value, "hunter2");
    assert_eq!(pairs[1].value, "sk-live");
}

#[test]
fn false_alarms_are_not_reported() {
    let mut cfg = Config::default();
    cfg.add_false_alarm("auth", "API_KEY");
    let pairs = leak_pairs("DB_PASSWORD=x1\nAPI_KEY=x2\n");
    let found = leak_findings("auth", ".env.example", &pairs, &Some(cfg));
    let ks: Vec<&str> = found.iter().map(|f| f.key.as_str()).collect();
    assert_eq!(ks, vec!["DB_PASSWORD"]);
    assert_eq!(found[0].file_display, ".env.example");
    let all = leak_findings("auth", ".env.example", &pairs, &None);
    assert_eq!(all.len(), 2);
}

#[test]
fn false_alarm_pairs_pick_the_key() {
    let fs = vec![finding("a", "x", "K", "1"), finding("b", "y", "J", "2"), finding("c", "z", "K", "3")];
    let pairs = false_alarm_pairs(&fs, "K");
    assert_eq!(pairs, vec![("a".to_string(), "K".to_string()), ("c".to_string(), "K".to_string())]);
}

#[test]
fn entries_carry_plain_or_colored_labels() {
    let colors = ColorConfig::default();
    let fs = vec![finding("a", "x", "K", "v")];
    let plain = finding_entries(&fs, &colors, true, false);
    assert_eq!(plain[0].label, "K = v");
    let colored = finding_entries(&fs, &colors, true, true);
    assert_eq!(colored[0].label, "\x1b[32mK\x1b[0m = \x1b[33mv\x1b[0m");
    assert!(plain[0].counted);
}

#[test]
fn clean_removes_from_configmaps_and_empties_examples() {
    let targets = vec![
        Target {
            service: "auth".into(),
            file: EnvFile { kind: FileKind::ConfigMap, path: PathBuf::from("/x/configmap.yml"), display: "configmap.yml".into() },
        },
        Target {
            service: "auth".into(),
            file: EnvFile { kind: FileKind::DotenvExample, path: PathBuf::from("/x/.env.example"), display: ".env.example".into() },
        },
    ];
    let fs = vec![finding("auth", "configmap.yml", "API_KEY", "k"), finding("auth", ".env.example", "DB_PASSWORD", "p")];
    let olds = vec!["API_KEY: k\nLOG: info\n".to_string(), "DB_PASSWORD=p\nPORT=1\n".to_string()];
    let cs = clean_changes(&targets, &fs, &olds, false);
    assert_eq!(cs.changes.len(), 2);
    assert_eq!(cs.changes[0].new_content, "LOG: info\n");
    assert_eq!(cs.changes[1].new_content, "DB_PASSWORD=\nPORT=1\n");
    let removed = clean_changes(&targets, &fs, &olds, true);
    assert_eq!(removed.changes[1].new_content, "PORT=1\n");
}
