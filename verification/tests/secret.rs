use nv::config::SecretFormat;
use nv::model::FileKind;
use nv::secret::{generate, generate_unique, SecretError, SecretSpec};

#[test]
fn alnum_has_exact_length() {
    let spec = SecretSpec { length: 40, format: SecretFormat::Alnum, charset: None };
    let s = generate(&spec).unwrap();
    assert_eq!(s.chars().count(), 40);
    assert!(s.chars().all(|c| c.is_ascii_alphanumeric()));
}

#[test]
fn hex_encodes_length_bytes() {
    let spec = SecretSpec { length: 16, format: SecretFormat::Hex, charset: None };
    let s = generate(&spec).unwrap();
    assert_eq!(s.len(), 32);
    assert!(s.chars().all(|c| c.is_ascii_hexdigit()));
}

#[test]
fn custom_charset_respected() {
    let spec = SecretSpec { length: 50, format: SecretFormat::Base64, charset: Some("AB".to_string()) };
    let s = generate(&spec).unwrap();
    assert_eq!(s.len(), 50);
    assert!(s.chars().all(|c| c == 'A' || c == 'B'));
}

#[test]
fn unique_values_are_distinct() {
    let spec = SecretSpec { length: 32, format: SecretFormat::Base64, charset: None };
    let secrets = generate_unique(&spec, 5).unwrap();
    assert_eq!(secrets.len(), 5);
    for i in 0..secrets.len() {
        for j in (i + 1)..secrets.len() {
            assert_ne!(secrets[i], secrets[j]);
        }
    }
}

#[test]
fn zero_length_errors() {
    let spec = SecretSpec { length: 0, format: SecretFormat::Hex, charset: None };
    assert!(generate(&spec).is_err());
}

#[test]
fn base64_without_padding_has_expected_length() {
    let spec = SecretSpec { length: 32, format: SecretFormat::Base64, charset: None };
    let s = generate(&spec).unwrap();
    assert_eq!(s.len(), 43);
    assert!(s.chars().all(|c| c.is_ascii_alphanumeric() || c == '-' || c == '_'));
}

#[test]
fn short_base64_secrets_are_unpadded() {
    for (n, expected) in [(1usize, 2usize), (2, 3), (3, 4), (4, 6)] {
        let spec = SecretSpec { length: n, format: SecretFormat::Base64, charset: None };
        let s = generate(&spec).unwrap();
        assert_eq!(s.len(), expected);
        assert!(!s.contains('='));
        assert!(s.chars().all(|c| c.is_ascii_alphanumeric() || c == '-' || c == '_'));
    }
}

#[test]
fn empty_charset_errors() {
    let spec = SecretSpec { length: 8, format: SecretFormat::Alnum, charset: Some(String::new()) };
    assert!(generate(&spec).is_err());
}

#[test]
fn zero_length_error_message() {
    let spec = SecretSpec { length: 0, format: SecretFormat::Alnum, charset: None };
    let err = generate(&spec).unwrap_err();
    assert_eq!(err, SecretError::ZeroLength);
}

fn target(kind: FileKind, display: &str) -> nv::edit::Target {
    nv::edit::Target {
        service: "api".to_string(),
        file: nv::model::EnvFile { kind, path: std::path::PathBuf::from(display), display: display.to_string() },
    }
}

#[test]
fn secret_values_leave_example_files_empty_and_share_one_secret() {
    let targets = vec![target(FileKind::Dotenv, ".env"), target(FileKind::DotenvExample, ".env.example"), target(FileKind::ConfigMap, "cm.yml")];
    let spec = SecretSpec { length: 16, format: SecretFormat::Hex, charset: None };
    let v = nv::secret::secret_values(&targets, &spec, false).unwrap();
    assert_eq!(v.len(), 3);
    assert_eq!(v[1], "");
    assert_eq!(v[0], v[2]);
    assert_eq!(v[0].len(), 32);
    let u = nv::secret::secret_values(&targets, &spec, true).unwrap();
    assert_eq!(u[1], "");
    assert_ne!(u[0], u[2]);
}

#[test]
fn secret_values_errors_name_the_cause() {
    let real = vec![target(FileKind::Dotenv, ".env")];
    let examples = vec![target(FileKind::DotenvExample, ".env.example")];
    let empty_charset = SecretSpec { length: 8, format: SecretFormat::Alnum, charset: Some(String::new()) };
    assert_eq!(nv::secret::secret_values(&real, &empty_charset, true).unwrap_err(), SecretError::EmptyCharset);
    assert_eq!(nv::secret::secret_values(&examples, &empty_charset, false).unwrap_err(), SecretError::EmptyCharset);
    assert_eq!(nv::secret::secret_values(&examples, &empty_charset, true).unwrap(), vec![String::new()]);
    assert!(generate_unique(&empty_charset, 0).unwrap().is_empty());
}

#[test]
fn unique_from_picks_the_first_distinct_draws() {
    let draws: Vec<String> = ["a", "b", "a", "c", "d"].iter().map(|s| s.to_string()).collect();
    assert_eq!(nv::secret::unique_from(&draws, 3).unwrap(), vec!["a".to_string(), "b".to_string(), "c".to_string()]);
    assert_eq!(nv::secret::unique_from(&draws, 5).unwrap_err(), SecretError::NotUnique);
    assert!(nv::secret::unique_from(&Vec::new(), 0).unwrap().is_empty());
    let repeats: Vec<String> = (0..200).map(|i| if i < 128 { "x".to_string() } else { format!("y{i}") }).collect();
    assert_eq!(nv::secret::unique_from(&repeats, 2).unwrap_err(), SecretError::NotUnique);
}

#[test]
fn any_file_named_example_gets_the_empty_value() {
    let targets = vec![target(FileKind::Secret, "k8s/secrets.yml.example"), target(FileKind::ConfigMap, "configmap.example.yml"), target(FileKind::Dotenv, ".env")];
    let spec = SecretSpec { length: 8, format: SecretFormat::Alnum, charset: None };
    for unique in [false, true] {
        let v = nv::secret::secret_values(&targets, &spec, unique).unwrap();
        assert_eq!(v[0], "");
        assert_eq!(v[1], "");
        assert_eq!(v[2].chars().count(), 8);
    }
}
