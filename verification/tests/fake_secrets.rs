use nv::config::Config;
use nv::fake_secrets::{is_detected, is_placeholder, is_secret_key_name, key_value_pairs};
use nv::model::FileKind;
use nv::parser::parse;

fn keys_of(input: &str) -> Vec<String> {
    key_value_pairs(input).into_iter().map(|p| p.key).collect()
}

#[test]
fn placeholder_xxx() {
    assert!(is_placeholder("xxx"));
    assert!(is_placeholder("XXXX"));
    assert!(is_placeholder("xxx "));
    assert!(is_placeholder(" xxx"));
}

#[test]
fn placeholder_changeme() {
    assert!(is_placeholder("changeme"));
    assert!(is_placeholder("CHANGE_ME"));
    assert!(is_placeholder("change-me"));
}

#[test]
fn placeholder_other_patterns() {
    assert!(is_placeholder("placeholder"));
    assert!(is_placeholder("dummy"));
    assert!(is_placeholder("test"));
    assert!(is_placeholder("example"));
    assert!(is_placeholder("fake"));
    assert!(is_placeholder("secret"));
}

#[test]
fn placeholder_empty() {
    assert!(is_placeholder(""));
    assert!(is_placeholder("   "));
    assert!(is_placeholder("\t"));
}

#[test]
fn not_placeholder() {
    assert!(!is_placeholder("sk-test-123"));
    assert!(!is_placeholder("postgres://localhost"));
    assert!(!is_placeholder("hello world"));
    assert!(!is_placeholder("xx"));
    assert!(!is_placeholder("ab"));
}

#[test]
fn secret_key_pattern_matches() {
    assert!(is_secret_key_name("DB_PASSWORD"));
    assert!(is_secret_key_name("API_KEY"));
    assert!(is_secret_key_name("JWT_SECRET"));
    assert!(is_secret_key_name("AUTH_TOKEN"));
    assert!(is_secret_key_name("USER_ID"));
    assert!(is_secret_key_name("ADMIN_USERNAME"));
}

#[test]
fn secret_key_pattern_no_match() {
    assert!(!is_secret_key_name("LOG_LEVEL"));
    assert!(!is_secret_key_name("PORT"));
    assert!(!is_secret_key_name("DATABASE_URL"));
    assert!(!is_secret_key_name("API"));
    assert!(!is_secret_key_name("KEY"));
}

#[test]
fn key_value_pattern_matches_dotenv() {
    let input = "DB_PASSWORD=secret123\nAPI_KEY=sk-test\nLOG_LEVEL=debug\n";
    assert_eq!(keys_of(input), vec!["DB_PASSWORD", "API_KEY", "LOG_LEVEL"]);
}

#[test]
fn key_value_pattern_matches_yaml() {
    let input = "  DB_PASSWORD: hunter2\n  API_KEY: sk-live\n";
    assert_eq!(keys_of(input), vec!["DB_PASSWORD", "API_KEY"]);
}

#[test]
fn key_value_pattern_matches_export() {
    let input = "export JWT_TOKEN=abc123\n";
    assert_eq!(keys_of(input), vec!["JWT_TOKEN"]);
}

#[test]
fn fake_secrets_false_alarm_roundtrip() {
    let mut cfg = Config::default();
    assert!(!cfg.is_false_alarm("auth", "API_KEY"));
    assert!(cfg.add_false_alarm("auth", "API_KEY"));
    assert!(cfg.is_false_alarm("auth", "API_KEY"));
    assert!(!cfg.add_false_alarm("auth", "API_KEY"));
}

#[test]
fn secrets_file_only_considers_data_section() {
    let content = "\
apiVersion: v1
kind: Secret
metadata:
  name: my-secret
  labels:
    app: my-app
data:
  DB_PASSWORD: c2VjcmV0
  API_KEY: c2stdGVzdA==
type: Opaque
";
    let pairs = parse(content, FileKind::Secret);
    let keys: Vec<&str> = pairs.iter().map(|p| p.key.as_str()).collect();
    assert_eq!(keys, vec!["DB_PASSWORD", "API_KEY"]);
}

#[test]
fn secrets_file_with_stringdata_section() {
    let content = "\
apiVersion: v1
kind: Secret
metadata:
  name: my-secret
stringData:
  DB_PASSWORD: secret
  API_KEY: sk-test
";
    let pairs = parse(content, FileKind::Secret);
    let keys: Vec<&str> = pairs.iter().map(|p| p.key.as_str()).collect();
    assert_eq!(keys, vec!["DB_PASSWORD", "API_KEY"]);
}

#[test]
fn secrets_file_metadata_keys_not_included() {
    let content = "\
apiVersion: v1
kind: Secret
metadata:
  name: my-secret
  DB_PASSWORD: should-not-be-here
data:
  API_KEY: c2stdGVzdA==
";
    let pairs = parse(content, FileKind::Secret);
    let keys: Vec<&str> = pairs.iter().map(|p| p.key.as_str()).collect();
    assert_eq!(keys, vec!["API_KEY"]);
}

#[test]
fn values_come_from_either_syntax() {
    let pairs = key_value_pairs("A_KEY=one\n  B_KEY: two\n");
    assert_eq!(pairs[0].value, "one");
    assert_eq!(pairs[1].value, "two");
}

#[test]
fn detection_rules_by_kind() {
    let special: Vec<String> = vec!["SPECIAL".to_string()];
    assert!(is_detected(FileKind::ConfigMap, "LOG_LEVEL", "changeme", &special));
    assert!(!is_detected(FileKind::ConfigMap, "DB_PASSWORD", "changeme", &special));
    assert!(!is_detected(FileKind::ConfigMap, "LOG_LEVEL", "debug", &special));
    assert!(is_detected(FileKind::Secret, "LOG_LEVEL", "debug", &special));
    assert!(!is_detected(FileKind::Secret, "SPECIAL", "x", &special));
    assert!(!is_detected(FileKind::Dotenv, "LOG_LEVEL", "xxx", &special));
}
