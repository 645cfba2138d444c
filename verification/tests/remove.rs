use nv::edit::collect_targets;
use nv::model::FileKind;
use nv::remove::{remove_keys, remove_kinds, RemoveError};

#[test]
fn rejects_no_flags_at_all() {
    let result = remove_kinds(1, false, false, false, false, false);
    assert_eq!(result, Err(RemoveError::NothingSelected));
}

#[test]
fn service_flag_without_file_flags_defaults_to_all() {
    let kinds = remove_kinds(1, false, false, false, false, true).unwrap();
    assert_eq!(
        kinds,
        vec![FileKind::Dotenv, FileKind::DotenvExample, FileKind::ConfigMap, FileKind::Secret]
    );
    let targets = collect_targets(&vec![], &vec!["auth".to_string()], &kinds);
    assert!(targets.is_empty());
}

#[test]
fn rejects_all_with_file_flags() {
    let result = remove_kinds(1, true, true, false, false, false);
    assert_eq!(result, Err(RemoveError::AllWithFilters));
}

#[test]
fn rejects_all_with_service() {
    let result = remove_kinds(1, true, false, false, false, true);
    assert_eq!(result, Err(RemoveError::AllWithFilters));
}

#[test]
fn no_keys_is_an_error() {
    assert_eq!(remove_kinds(0, true, false, false, false, false), Err(RemoveError::NoKeys));
    assert_eq!(
        RemoveError::NoKeys.message(),
        "no keys specified; provide at least one key to remove"
    );
}

#[test]
fn env_flag_selects_both_dotenv_kinds() {
    let kinds = remove_kinds(2, false, true, false, true, false).unwrap();
    assert_eq!(kinds, vec![FileKind::Dotenv, FileKind::DotenvExample, FileKind::Secret]);
}

#[test]
fn removes_every_listed_key() {
    let out = remove_keys("A=1\nB=2\nC=3\n", FileKind::Dotenv, &vec!["A".to_string(), "C".to_string()]);
    assert_eq!(out, "B=2\n");
}
