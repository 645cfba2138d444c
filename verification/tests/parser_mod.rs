use nv::model::FileKind;
use nv::parser::{detect_kind, detect_newline, parse_comments};

fn kind(name: &str) -> Option<FileKind> {
    detect_kind(name)
}

#[test]
fn dotenv_exact() {
    assert_eq!(kind(".env"), Some(FileKind::Dotenv));
}

#[test]
fn dotenv_local() {
    assert_eq!(kind(".env.local"), Some(FileKind::Dotenv));
}

#[test]
fn dotenv_staging() {
    assert_eq!(kind(".env.staging"), Some(FileKind::Dotenv));
}

#[test]
fn dotenv_foo_bar() {
    assert_eq!(kind(".env.foo.bar"), Some(FileKind::Dotenv));
}

#[test]
fn dotenv_trailing_dot() {
    assert_eq!(kind(".env."), Some(FileKind::Dotenv));
}

#[test]
fn dotenv_example_exact() {
    assert_eq!(kind(".env.example"), Some(FileKind::DotenvExample));
}

#[test]
fn dotenv_testing_example() {
    assert_eq!(kind(".env.testing.example"), Some(FileKind::DotenvExample));
}

#[test]
fn dotenv_staging_example() {
    assert_eq!(kind(".env.staging.example"), Some(FileKind::DotenvExample));
}

#[test]
fn swap_files_excluded() {
    assert_eq!(kind(".env.swp"), None);
    assert_eq!(kind(".env.swo"), None);
}

#[test]
fn backup_files_excluded() {
    assert_eq!(kind(".env~"), None);
    assert_eq!(kind(".env.bak"), None);
    assert_eq!(kind(".env.tmp"), None);
}

#[test]
fn unrelated_files_ignored() {
    assert_eq!(kind("notes.txt"), None);
    assert_eq!(kind("Dockerfile"), None);
}

#[test]
fn configmap_yaml() {
    assert_eq!(kind("configmap.yml"), Some(FileKind::ConfigMap));
    assert_eq!(kind("configmap-api.yaml"), Some(FileKind::ConfigMap));
}

#[test]
fn secret_yaml() {
    assert_eq!(kind("secrets.yml"), Some(FileKind::Secret));
    assert_eq!(kind("secrets-db.yaml"), Some(FileKind::Secret));
}

#[test]
fn secret_yaml_example() {
    assert_eq!(kind("secrets.yml.example"), Some(FileKind::Secret));
    assert_eq!(kind("secrets-db.yaml.example"), Some(FileKind::Secret));
}

#[test]
fn configmap_yaml_example() {
    assert_eq!(kind("configmap.yml.example"), Some(FileKind::ConfigMap));
    assert_eq!(kind("configmap-api.yaml.example"), Some(FileKind::ConfigMap));
}

#[test]
fn comments_full_line_collected_in_order() {
    let comments = parse_comments("# first\n# second\nFOO=bar\n");
    assert_eq!(comments, vec!["first", "second"]);
}

#[test]
fn comments_commented_out_key_is_collected() {
    let comments = parse_comments("# REDIS_ENTERPRISE_HOST=redis-enterprise\nFOO=bar\n");
    assert_eq!(comments, vec!["REDIS_ENTERPRISE_HOST=redis-enterprise"]);
}

#[test]
fn comments_inline_on_value_line() {
    let comments = parse_comments("FOO=bar # the foo\n");
    assert_eq!(comments, vec!["the foo"]);
}

#[test]
fn comments_header_border_normalized() {
    let comments = parse_comments("#################### REDIS SETTINGS ####################\n");
    assert_eq!(comments, vec!["REDIS SETTINGS ####################"]);
}

#[test]
fn comments_blank_lines_skipped() {
    let comments = parse_comments("\n\n# a\n\nFOO=bar\n\n");
    assert_eq!(comments, vec!["a"]);
}

#[test]
fn mod_comments_quoted_hash_ignored() {
    let comments = parse_comments("FOO=\"a # b\" # real\n");
    assert_eq!(comments, vec!["real"]);
}

#[test]
fn comments_hash_without_whitespace_not_inline() {
    let comments = parse_comments("FOO=abc#def\n");
    assert!(comments.is_empty());
}

#[test]
fn comments_yaml_mapping_inline() {
    let comments = parse_comments("DATABASE_URL: postgres://x # prod\n");
    assert_eq!(comments, vec!["prod"]);
}

#[test]
fn comments_yaml_k8s_comments_all_collected() {
    let content = "# Auth env\nkind: ConfigMap\ndata:\n  # DB config\n  DATABASE_URL: x # prod\n";
    let comments = parse_comments(content);
    assert_eq!(comments, vec!["Auth env", "DB config", "prod"]);
}

#[test]
fn comments_duplicates_preserved() {
    let comments = parse_comments("# retry\nFOO=bar # retry\n");
    assert_eq!(comments, vec!["retry", "retry"]);
}

#[test]
fn newline_follows_first_line_ending() {
    assert_eq!(detect_newline("A=1\r\nB=2\r\n"), "\r\n");
    assert_eq!(detect_newline("A=1\nB=2\n"), "\n");
    assert_eq!(detect_newline(""), "\n");
}

#[test]
fn kind_labels() {
    assert_eq!(FileKind::Dotenv.label(), "dotenv");
    assert_eq!(FileKind::DotenvExample.label(), "dotenv_example");
    assert_eq!(FileKind::ConfigMap.label(), "configmap");
    assert_eq!(FileKind::Secret.label(), "secret");
}

#[test]
fn set_value_reads_back_through_parse_for_every_kind() {
    let cases = [
        (FileKind::Dotenv, "A=1\nKEY=old\n"),
        (FileKind::DotenvExample, ""),
        (FileKind::ConfigMap, "a: 1\nkey: old\n"),
        (FileKind::Secret, "kind: Secret\nstringData:\n  a: x\n"),
    ];
    for (kind, content) in cases {
        let out = nv::parser::set_value(content, kind, "KEY", "new value");
        let pairs = nv::parser::parse(&out, kind);
        let found = pairs.iter().find(|p| p.key == "KEY").map(|p| p.value.as_str());
        assert_eq!(found, Some("new value"));
    }
}

#[test]
fn setting_a_present_key_rewrites_only_its_line() {
    let cases = [
        (FileKind::Dotenv, "# c\nA=1\nKEY=old\nB=2\n"),
        (FileKind::ConfigMap, "a: 1\nKEY: old\nb: 2\n"),
        (FileKind::Secret, "kind: Secret\ndata:\n  KEY: old\n  b: x\n"),
    ];
    for (kind, content) in cases {
        let out = nv::parser::set_value(content, kind, "KEY", "new");
        let before: Vec<&str> = content.lines().collect();
        let after: Vec<&str> = out.lines().collect();
        assert_eq!(before.len(), after.len());
        let changed = before.iter().zip(after.iter()).filter(|(a, b)| a != b).count();
        assert_eq!(changed, 1);
    }
}
