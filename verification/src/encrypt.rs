//! Whole-file encryption with AES-256-GCM under a key derived from a
//! password (PBKDF2-HMAC-SHA256), written as `ENC[<base64>]` plus a newline.

use aes_gcm::aead::Aead;
use aes_gcm::KeyInit;
use vstd::prelude::*;
use vstd::utf8::{decode_utf8, encode_utf8, valid_utf8};
use vstd::string::StringSliceAdditionalSpecFns;

use crate::b64::base64_std;
use crate::text::{append, chars_of, ends_with, ends_with_s, starts_with, starts_with_s, string_of, trim_end, trim_end_s};

verus! {

/// PBKDF2-HMAC-SHA256 of the password's UTF-8 bytes with `salt` and
/// `rounds`, 32 bytes long (`pbkdf2::pbkdf2_hmac::<sha2::Sha256>`).
pub uninterp spec fn pbkdf2_sha256(password: Seq<char>, salt: Seq<u8>, rounds: u32) -> Seq<u8>;

/// AES-256-GCM encryption of `plain` under `key` and `nonce`
/// (`aes_gcm::Aes256Gcm::encrypt`): ciphertext followed by the tag.
pub uninterp spec fn aes_seal(key: Seq<u8>, nonce: Seq<u8>, plain: Seq<u8>) -> Seq<u8>;

/// AES-256-GCM decryption (`aes_gcm::Aes256Gcm::decrypt`): the plaintext,
/// or `None` when the tag does not verify.
pub uninterp spec fn aes_open(key: Seq<u8>, nonce: Seq<u8>, sealed: Seq<u8>) -> Option<Seq<u8>>;

/// Standard base64 decoding, `None` for text that is not base64.
pub uninterp spec fn base64_std_decode(text: Seq<char>) -> Option<Seq<u8>>;

/// `pbkdf2::pbkdf2_hmac::<sha2::Sha256>` into a 32-byte buffer. Trusted: the
/// crate's value for these inputs.
#[verifier::external_body]
fn derive_key(password: &str, salt: &[u8], rounds: u32) -> (r: Vec<u8>)
    ensures
        r@ == pbkdf2_sha256(password@, salt@, rounds),
        r@.len() == 32,
{
    let mut key = vec![0u8; 32];
    pbkdf2::pbkdf2_hmac::<sha2::Sha256>(password.as_bytes(), salt, rounds, &mut key);
    key
}

/// Twelve random bytes (`rand::random::<[u8; 12]>()`); nothing is stated of
/// their values.
#[verifier::external_body]
fn random_nonce() -> (r: Vec<u8>)
    ensures
        r@.len() == 12,
{
    rand::random::<[u8; 12]>().to_vec()
}

/// The most bytes AES-GCM encrypts in one call (`aes_gcm::P_MAX`, 2^36).
pub open spec fn seal_max() -> int {
    0x10_0000_0000
}

/// `Aes256Gcm::new_from_slice(key)` then `encrypt(nonce, plain)`. Trusted:
/// when it succeeds, the crate's sealed bytes for these inputs; a 32-byte
/// key is always accepted and encryption refuses exactly the plaintext
/// longer than `aes_gcm::P_MAX` bytes.
#[verifier::external_body]
fn seal(key: &Vec<u8>, nonce: &Vec<u8>, plain: &[u8]) -> (r: Option<Vec<u8>>)
    requires
        key@.len() == 32,
        nonce@.len() == 12,
    ensures
        r matches Some(c) ==> c@ == aes_seal(key@, nonce@, plain@),
        plain@.len() <= seal_max() <==> r is Some,
{
    let cipher = aes_gcm::Aes256Gcm::new_from_slice(key).ok()?;
    cipher.encrypt(aes_gcm::Nonce::from_slice(nonce), plain).ok()
}

/// Opening what `key` and `nonce` sealed gives the sealed bytes back, for
/// every plaintext that encryption accepts.
pub open spec fn gives_back_sealed(r: Option<Vec<u8>>, key: Seq<u8>, nonce: Seq<u8>, sealed: Seq<u8>) -> bool {
    forall|p: Seq<u8>| p.len() <= seal_max() && sealed == #[trigger] aes_seal(key, nonce, p) ==> (r matches Some(q) && q@ == p)
}

/// Decoding the encoding of some bytes gives those bytes back.
pub open spec fn gives_back_encoded(r: Option<Vec<u8>>, text: Seq<char>) -> bool {
    forall|b: Seq<u8>| text == #[trigger] base64_std(b) ==> (r matches Some(c) && c@ == b)
}

/// `Aes256Gcm::new_from_slice(key)` then `decrypt(nonce, sealed)`. Trusted:
/// the crate's result for these inputs, and authenticated decryption gives
/// back what the same key and nonce sealed from a plaintext that encryption
/// accepted (at most `P_MAX` bytes, whose sealed form stays within `C_MAX`).
#[verifier::external_body]
fn open(key: &Vec<u8>, nonce: &[u8], sealed: &[u8]) -> (r: Option<Vec<u8>>)
    requires
        key@.len() == 32,
        nonce@.len() == 12,
    ensures
        r matches Some(p) ==> aes_open(key@, nonce@, sealed@) == Some(p@),
        r is None ==> aes_open(key@, nonce@, sealed@) is None,
        gives_back_sealed(r, key@, nonce@, sealed@),
{
    let cipher = aes_gcm::Aes256Gcm::new_from_slice(key).ok()?;
    cipher.decrypt(aes_gcm::Nonce::from_slice(nonce), sealed).ok()
}

/// `STANDARD.encode`. Trusted: the engine writes RFC 4648's standard base64
/// of the bytes with `=` padding, as `base64_std` spells it out.
#[verifier::external_body]
fn b64_encode(bytes: &Vec<u8>) -> (r: String)
    ensures
        r@ == base64_std(bytes@),
{
    base64::Engine::encode(&base64::engine::general_purpose::STANDARD, bytes)
}

/// `STANDARD.decode`. Trusted: the crate's result for this text, and
/// decoding gives back the bytes an encoding came from.
#[verifier::external_body]
fn b64_decode(text: &str) -> (r: Option<Vec<u8>>)
    ensures
        r matches Some(b) ==> base64_std_decode(text@) == Some(b@),
        r is None ==> base64_std_decode(text@) is None,
        gives_back_encoded(r, text@),
{
    base64::Engine::decode(&base64::engine::general_purpose::STANDARD, text).ok()
}

/// `String::from_utf8`. Trusted as std documents it: text exactly for valid
/// UTF-8, the characters those bytes encode.
#[verifier::external_body]
fn utf8_string(bytes: Vec<u8>) -> (r: Option<String>)
    ensures
        r is Some <==> valid_utf8(bytes@),
        r matches Some(s) ==> s@ == decode_utf8(bytes@),
{
    String::from_utf8(bytes).ok()
}

/// Rounds of key derivation.
pub const PBKDF2_ITERATIONS: u32 = 100_000;

/// The salt of the key derivation.
pub open spec fn salt_s() -> Seq<u8> {
    encode_utf8("nv-encrypt-salt-v1"@)
}

/// The key derived from a password.
pub open spec fn key_s(password: Seq<char>) -> Seq<u8> {
    pbkdf2_sha256(password, salt_s(), PBKDF2_ITERATIONS)
}

/// The encrypted form of `plain` under `password` with `nonce`.
pub open spec fn encrypted_s(password: Seq<char>, nonce: Seq<u8>, plain: Seq<char>) -> Seq<char> {
    "ENC["@ + base64_std(nonce + aes_seal(key_s(password), nonce, encode_utf8(plain))) + "]\n"@
}

/// Why a file could not be encrypted or decrypted.
#[derive(Debug, Clone, Copy, PartialEq, Eq, Structural)]
pub enum CryptoError {
    /// The cipher refused to encrypt.
    EncryptionFailed,
    /// The `ENC[...]` payload is not base64.
    InvalidBase64,
    /// The payload is shorter than a nonce.
    TooShort,
    /// Authentication failed (usually a wrong key).
    DecryptionFailed,
    /// The decrypted bytes are not UTF-8 text.
    NotUtf8,
}

fn salt_bytes() -> (r: &'static [u8])
    ensures
        r@ == salt_s(),
{
    "nv-encrypt-salt-v1".as_bytes()
}

/// Encrypt a file's text with the given nonce: the empty text stays empty;
/// otherwise `ENC[<base64 of nonce and sealed text>]` and a newline, as
/// long as the cipher accepts the text's length.
pub fn encrypt_with_nonce(plaintext: &str, password: &str, nonce: &Vec<u8>) -> (r: Result<String, CryptoError>)
    requires
        nonce@.len() == 12,
    ensures
        plaintext@.len() == 0 ==> (r matches Ok(s) && s@.len() == 0),
        plaintext@.len() > 0 && encode_utf8(plaintext@).len() <= seal_max() ==> (r matches Ok(s) && s@
            == encrypted_s(password@, nonce@, plaintext@)),
        plaintext@.len() > 0 && encode_utf8(plaintext@).len() > seal_max() ==> r == Err::<String, CryptoError>(
            CryptoError::EncryptionFailed,
        ),
{
    if chars_of(plaintext).len() == 0 {
        return Ok(String::new());
    }
    let key = derive_key(password, salt_bytes(), PBKDF2_ITERATIONS);
    let sealed = match seal(&key, nonce, plaintext.as_bytes()) {
        Some(c) => c,
        None => {
            return Err(CryptoError::EncryptionFailed);
        },
    };
    let mut combined = nonce.clone();
    let mut i: usize = 0;
    while i < sealed.len()
        invariant
            i <= sealed.len(),
            combined@ == nonce@ + sealed@.take(i as int),
        decreases sealed.len() - i,
    {
        combined.push(sealed[i]);
        assert(sealed@.take(i + 1) =~= sealed@.take(i as int).push(sealed@[i as int]));
        i = i + 1;
    }
    assert(sealed@.take(sealed.len() as int) =~= sealed@);
    let mut out = chars_of("ENC[");
    append(&mut out, chars_of(b64_encode(&combined).as_str()).as_slice());
    append(&mut out, chars_of("]\n").as_slice());
    assert(out@ =~= encrypted_s(password@, nonce@, plaintext@));
    Ok(string_of(&out))
}

/// Encrypt a file's text: the empty text stays empty; otherwise
/// `ENC[<base64 of nonce and sealed text>]` and a newline, with a fresh
/// random nonce, as long as the cipher accepts the text's length.
pub fn encrypt_content(plaintext: &str, password: &str) -> (r: Result<String, CryptoError>)
    ensures
        plaintext@.len() == 0 ==> (r matches Ok(s) && s@.len() == 0),
        plaintext@.len() > 0 && encode_utf8(plaintext@).len() <= seal_max() ==> (r matches Ok(s) && exists|n: Seq<u8>|
            n.len() == 12 && s@ == #[trigger] encrypted_s(password@, n, plaintext@)),
        plaintext@.len() > 0 && encode_utf8(plaintext@).len() > seal_max() ==> r == Err::<String, CryptoError>(
            CryptoError::EncryptionFailed,
        ),
{
    if chars_of(plaintext).len() == 0 {
        return Ok(String::new());
    }
    let nonce = random_nonce();
    encrypt_with_nonce(plaintext, password, &nonce)
}

/// What decrypting a file's text gives: the empty text stays empty; text
/// that is not `ENC[...]` (once trailing whitespace is set aside) passes
/// through; otherwise the payload is decoded, split into nonce and sealed
/// bytes, opened and read as UTF-8, and the set-aside whitespace is put
/// back unless the text already ends with a newline.
pub open spec fn decrypt_s(value: Seq<char>, password: Seq<char>) -> Result<Seq<char>, CryptoError> {
    let t = trim_end_s(value);
    let trailing = value.skip(t.len() as int);
    if value.len() == 0 {
        Ok(seq![])
    } else if !(starts_with_s(t, "ENC["@) && t.len() >= 5 && ends_with_s(t, "]"@)) {
        Ok(value)
    } else {
        let encoded = t.subrange(4, t.len() - 1);
        match base64_std_decode(encoded) {
            None => Err(CryptoError::InvalidBase64),
            Some(combined) => if combined.len() < 12 {
                Err(CryptoError::TooShort)
            } else {
                match aes_open(key_s(password), combined.take(12), combined.skip(12)) {
                    None => Err(CryptoError::DecryptionFailed),
                    Some(plain) => if !valid_utf8(plain) {
                        Err(CryptoError::NotUtf8)
                    } else {
                        let s = decode_utf8(plain);
                        if trailing.len() == 0 || ends_with_s(s, "\n"@) {
                            Ok(s)
                        } else {
                            Ok(s + trailing)
                        }
                    },
                }
            },
        }
    }
}

/// `value` is what encrypting `p` under `password` with nonce `n` wrote,
/// followed by the whitespace `w`.
pub open spec fn encrypted_from(value: Seq<char>, password: Seq<char>, n: Seq<u8>, p: Seq<char>, w: Seq<char>) -> bool {
    &&& n.len() == 12
    &&& p.len() > 0
    &&& encode_utf8(p).len() <= seal_max()
    &&& forall|i: int| 0 <= i < w.len() ==> crate::text::is_ws(#[trigger] w[i])
    &&& value == encrypted_s(password, n, p) + w
}

/// The shape of encrypted text followed by whitespace: trimming the end
/// leaves `ENC[<payload>]`, and what was trimmed is the newline and the
/// whitespace.
proof fn lemma_encrypted_shape(password: Seq<char>, n: Seq<u8>, p: Seq<char>, w: Seq<char>)
    requires
        forall|i: int| 0 <= i < w.len() ==> crate::text::is_ws(#[trigger] w[i]),
    ensures
        ({
            let v = encrypted_s(password, n, p) + w;
            let t = trim_end_s(v);
            let b = base64_std(n + aes_seal(key_s(password), n, encode_utf8(p)));
            &&& v.len() > 0
            &&& t == "ENC["@ + b + "]"@
            &&& starts_with_s(t, "ENC["@)
            &&& t.len() >= 5
            &&& ends_with_s(t, "]"@)
            &&& t.subrange(4, t.len() - 1) == b
            &&& v.skip(t.len() as int) == "\n"@ + w
        }),
{
    reveal_strlit("ENC[");
    reveal_strlit("]\n");
    reveal_strlit("]");
    reveal_strlit("\n");
    let v = encrypted_s(password, n, p) + w;
    let b = base64_std(n + aes_seal(key_s(password), n, encode_utf8(p)));
    let t0 = "ENC["@ + b + "]"@;
    assert(v =~= t0 + ("\n"@ + w));
    assert forall|i: int| t0.len() <= i < v.len() implies crate::text::is_ws(#[trigger] v[i]) by {
        if i > t0.len() {
            assert(v[i] == w[i - t0.len() - 1]);
        }
    }
    assert(v[t0.len() - 1] == ']');
    crate::text::lemma_trim_end_at(v, t0.len() as int);
    assert(v.take(t0.len() as int) =~= t0);
    assert(t0.take(4) =~= "ENC["@);
    assert(t0.skip(t0.len() - 1) =~= "]"@);
    assert(t0.subrange(4, t0.len() - 1) =~= b);
    assert(v.skip(t0.len() as int) =~= "\n"@ + w);
}

/// Decrypt `ENC[...]` text back to the plain text. Decrypting what
/// `encrypt_content` wrote with the same password, followed by any
/// whitespace, gives the plain text back; when it had no final newline, the
/// newline and that whitespace follow it.
pub fn decrypt_content(value: &str, password: &str) -> (r: Result<String, CryptoError>)
    ensures
        match r {
            Ok(s) => decrypt_s(value@, password@) == Ok::<Seq<char>, CryptoError>(s@),
            Err(e) => decrypt_s(value@, password@) == Err::<Seq<char>, CryptoError>(e),
        },
        forall|n: Seq<u8>, p: Seq<char>, w: Seq<char>|
            #[trigger] encrypted_from(value@, password@, n, p, w) ==> (r matches Ok(s) && s@ == if ends_with_s(p, "\n"@) {
                p
            } else {
                p + "\n"@ + w
            }),
{
    let v = chars_of(value);
    if v.len() == 0 {
        proof {
            assert forall|n: Seq<u8>, p: Seq<char>, w: Seq<char>| #[trigger] encrypted_from(value@, password@, n, p, w) implies false by {
                lemma_encrypted_shape(password@, n, p, w);
            }
        }
        return Ok(String::new());
    }
    let t = trim_end(&v);
    proof {
        crate::text::lemma_trim_end_prefix(v@);
    }
    let trailing = crate::text::slice(&v, t.len(), v.len());
    assert(trailing@ =~= v@.skip(t@.len() as int));
    if !(starts_with(&t, chars_of("ENC[").as_slice()) && t.len() >= 5 && ends_with(&t, chars_of("]").as_slice())) {
        proof {
            assert forall|n: Seq<u8>, p: Seq<char>, w: Seq<char>| #[trigger] encrypted_from(value@, password@, n, p, w) implies false by {
                lemma_encrypted_shape(password@, n, p, w);
            }
        }
        return Ok(value.to_owned());
    }
    let encoded = string_of(&crate::text::slice(&t, 4, t.len() - 1));
    let dec = b64_decode(encoded.as_str());
    let combined = match dec {
        Some(c) => c,
        None => {
            proof {
                assert forall|n: Seq<u8>, p: Seq<char>, w: Seq<char>| #[trigger] encrypted_from(value@, password@, n, p, w) implies false by {
                    lemma_encrypted_shape(password@, n, p, w);
                    assert(encoded@ == base64_std(n + aes_seal(key_s(password@), n, encode_utf8(p))));
                }
            }
            return Err(CryptoError::InvalidBase64);
        },
    };
    proof {
        assert forall|n: Seq<u8>, p: Seq<char>, w: Seq<char>| #[trigger] encrypted_from(value@, password@, n, p, w) implies combined@ == n + aes_seal(key_s(password@), n, encode_utf8(p)) by {
            lemma_encrypted_shape(password@, n, p, w);
            assert(encoded@ == base64_std(n + aes_seal(key_s(password@), n, encode_utf8(p))));
        }
    }
    if combined.len() < 12 {
        return Err(CryptoError::TooShort);
    }
    let nonce = crate::text::slice_bytes(&combined, 0, 12);
    let sealed = crate::text::slice_bytes(&combined, 12, combined.len());
    assert(nonce@ =~= combined@.take(12));
    assert(sealed@ =~= combined@.skip(12));
    let key = derive_key(password, salt_bytes(), PBKDF2_ITERATIONS);
    proof {
        assert forall|n: Seq<u8>, p: Seq<char>, w: Seq<char>| #[trigger] encrypted_from(value@, password@, n, p, w) implies nonce@ == n && sealed@ == aes_seal(key@, n, encode_utf8(p)) by {
            assert(combined@.take(12) =~= n);
            assert(combined@.skip(12) =~= aes_seal(key_s(password@), n, encode_utf8(p)));
        }
    }
    let opened = open(&key, nonce.as_slice(), sealed.as_slice());
    let plain = match opened {
        Some(p) => p,
        None => {
            proof {
                assert forall|n: Seq<u8>, p: Seq<char>, w: Seq<char>| #[trigger] encrypted_from(value@, password@, n, p, w) implies false by {
                    assert(sealed@ == aes_seal(key@, nonce@, encode_utf8(p)));
                }
            }
            return Err(CryptoError::DecryptionFailed);
        },
    };
    proof {
        assert forall|n: Seq<u8>, p: Seq<char>, w: Seq<char>| #[trigger] encrypted_from(value@, password@, n, p, w) implies plain@ == encode_utf8(p) by {
            assert(sealed@ == aes_seal(key@, nonce@, encode_utf8(p)));
        }
    }
    let ghost pb = plain@;
    let s = match utf8_string(plain) {
        Some(s) => s,
        None => {
            proof {
                assert forall|n: Seq<u8>, p: Seq<char>, w: Seq<char>| #[trigger] encrypted_from(value@, password@, n, p, w) implies false by {
                    vstd::utf8::encode_utf8_valid_utf8(p);
                }
            }
            return Err(CryptoError::NotUtf8);
        },
    };
    let sc = chars_of(s.as_str());
    let r = if trailing.len() == 0 || ends_with(&sc, chars_of("\n").as_slice()) {
        s
    } else {
        let mut out = sc;
        append(&mut out, trailing.as_slice());
        string_of(&out)
    };
    proof {
        assert forall|n: Seq<u8>, p: Seq<char>, w: Seq<char>| #[trigger] encrypted_from(value@, password@, n, p, w) implies r@ == if ends_with_s(p, "\n"@) {
            p
        } else {
            p + "\n"@ + w
        } by {
            lemma_encrypted_shape(password@, n, p, w);
            vstd::utf8::encode_utf8_decode_utf8(p);
            assert(s@ == p);
        }
    }
    Ok(r)
}

} // verus!
