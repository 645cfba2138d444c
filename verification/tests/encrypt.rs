use nv::encrypt::{decrypt_content, encrypt_content, CryptoError};

const ENCRYPTED_PREFIX: &str = "ENC[";
const ENCRYPTED_SUFFIX: &str = "]";

#[test]
fn encrypt_decrypt_roundtrip() {
    let password = "test-password-123";
    let plain = "hello world\n";
    let encrypted = encrypt_content(plain, password).unwrap();
    assert!(encrypted.starts_with(ENCRYPTED_PREFIX));
    assert!(encrypted.trim_end().ends_with(ENCRYPTED_SUFFIX));
    assert!(encrypted.ends_with('\n'));
    assert_ne!(encrypted, plain);
    let decrypted = decrypt_content(&encrypted, password).unwrap();
    assert_eq!(decrypted, plain);
}

#[test]
fn encrypt_always_appends_trailing_newline() {
    let encrypted = encrypt_content("hello world", "key").unwrap();
    assert!(encrypted.trim_end().ends_with(ENCRYPTED_SUFFIX));
    assert!(encrypted.ends_with('\n'));
}

#[test]
fn decrypt_roundtrip_content_without_newline_gains_one() {
    let encrypted = encrypt_content("hello world", "key").unwrap();
    let decrypted = decrypt_content(&encrypted, "key").unwrap();
    assert_eq!(decrypted, "hello world\n");
}

#[test]
fn encrypt_empty_content() {
    let result = encrypt_content("", "key").unwrap();
    assert_eq!(result, "");
}

#[test]
fn decrypt_empty_content() {
    let result = decrypt_content("", "key").unwrap();
    assert_eq!(result, "");
}

#[test]
fn decrypt_non_encrypted_passthrough() {
    let result = decrypt_content("plain-text", "key").unwrap();
    assert_eq!(result, "plain-text");
}

#[test]
fn wrong_key_fails() {
    let encrypted = encrypt_content("secret", "correct-key").unwrap();
    let result = decrypt_content(&encrypted, "wrong-key");
    assert!(result.is_err());
}

#[test]
fn encrypt_preserves_multiline_content() {
    let content = "# comment\nFOO=bar\nBAZ=qux\n";
    let encrypted = encrypt_content(content, "key").unwrap();
    let decrypted = decrypt_content(&encrypted, "key").unwrap();
    assert_eq!(decrypted, content);
}

#[test]
fn encrypt_newlines_in_content() {
    let content = "line1\nline2\nline3\n";
    let encrypted = encrypt_content(content, "key").unwrap();
    let decrypted = decrypt_content(&encrypted, "key").unwrap();
    assert_eq!(decrypted, content);
}

#[test]
fn encrypt_special_characters() {
    let content = "KEY=\"value with spaces\"\nOTHER=foo#bar\n";
    let encrypted = encrypt_content(content, "key").unwrap();
    let decrypted = decrypt_content(&encrypted, "key").unwrap();
    assert_eq!(decrypted, content);
}

#[test]
fn decrypt_tolerates_extra_trailing_blank_line() {
    let encrypted = encrypt_content("hello world\n", "key").unwrap();
    let file = format!("{encrypted}\n");
    let decrypted = decrypt_content(&file, "key").unwrap();
    assert_eq!(decrypted, "hello world\n");
}

#[test]
fn decrypt_preserves_file_newlines_when_content_has_none() {
    let encrypted = encrypt_content("hello world", "key").unwrap();
    let file = format!("{encrypted}\n");
    let decrypted = decrypt_content(&file, "key").unwrap();
    assert_eq!(decrypted, "hello world\n\n");
}

#[test]
fn decrypt_tolerates_crlf_ending() {
    let encrypted = encrypt_content("hello world", "key").unwrap();
    let crlf_file = format!("{}\r\n", encrypted.trim_end_matches('\n'));
    let decrypted = decrypt_content(&crlf_file, "key").unwrap();
    assert_eq!(decrypted, "hello world\r\n");
}

#[test]
fn decrypt_non_encrypted_passthrough_keeps_trailing_newline() {
    let decrypted = decrypt_content("plain-text\n", "key").unwrap();
    assert_eq!(decrypted, "plain-text\n");
}

#[test]
fn corrupt_payload_reports_invalid_base64() {
    let result = decrypt_content("ENC[!!!not base64!!!]", "key");
    assert_eq!(result, Err(CryptoError::InvalidBase64));
}

#[test]
fn short_payload_is_rejected() {
    let result = decrypt_content("ENC[AAAA]", "key");
    assert_eq!(result, Err(CryptoError::TooShort));
}

#[test]
fn encrypted_text_followed_by_whitespace_decrypts() {
    let e = encrypt_content("abc", "pw").unwrap();
    assert!(e.starts_with("ENC[") && e.ends_with("]\n"));
    assert_eq!(decrypt_content(&e, "pw").unwrap(), "abc\n");
    assert_eq!(decrypt_content(&format!("{e}\n"), "pw").unwrap(), "abc\n\n");
    let e2 = encrypt_content("line\n", "pw").unwrap();
    assert_eq!(decrypt_content(&format!("{e2}  \n"), "pw").unwrap(), "line\n");
}

#[test]
fn payload_is_padded_standard_base64() {
    // 12 nonce bytes + 5 plaintext bytes + 16 tag bytes = 33 bytes, 44 characters.
    let e = encrypt_content("hello", "key").unwrap();
    assert!(e.starts_with("ENC[") && e.ends_with("]\n"));
    let payload = &e[4..e.len() - 2];
    assert_eq!(payload.len(), 44);
    assert!(payload.chars().all(|c| c.is_ascii_alphanumeric() || c == '+' || c == '/' || c == '='));
}

#[test]
fn encryption_with_a_given_nonce_is_deterministic() {
    let nonce = vec![7u8; 12];
    let a = nv::encrypt::encrypt_with_nonce("A=1\n", "key", &nonce).unwrap();
    let b = nv::encrypt::encrypt_with_nonce("A=1\n", "key", &nonce).unwrap();
    assert_eq!(a, b);
    assert!(a.starts_with("ENC[BwcHBwcHBwcHBwcH"));
    assert_eq!(decrypt_content(&a, "key").unwrap(), "A=1\n");
    assert_eq!(nv::encrypt::encrypt_with_nonce("", "key", &nonce).unwrap(), "");
}
