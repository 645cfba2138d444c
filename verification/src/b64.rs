//! Base64 text of bytes (RFC 4648), in the standard alphabet with padding
//! and in the URL-safe alphabet without it.

use vstd::prelude::*;

verus! {

/// The character for a six-bit value: `A`-`Z`, `a`-`z`, `0`-`9`, then the
/// alphabet's own two characters `c62` and `c63`.
pub open spec fn b64_digit(v: int, c62: char, c63: char) -> char {
    if v < 26 {
        (('A' as int) + v) as char
    } else if v < 52 {
        (('a' as int) + v - 26) as char
    } else if v < 62 {
        (('0' as int) + v - 52) as char
    } else if v == 62 {
        c62
    } else {
        c63
    }
}

/// Base64 text of bytes: every three bytes become four characters, each
/// standing for six bits, high bits first; a last group of one or two bytes
/// becomes two or three characters, filled up with `=` to four when `pad`
/// is set.
pub open spec fn b64_s(bytes: Seq<u8>, c62: char, c63: char, pad: bool) -> Seq<char>
    decreases bytes.len(),
{
    if bytes.len() == 0 {
        seq![]
    } else if bytes.len() == 1 {
        let a = bytes[0] as int;
        seq![b64_digit(a / 4, c62, c63), b64_digit((a % 4) * 16, c62, c63)] + if pad {
            seq!['=', '=']
        } else {
            seq![]
        }
    } else if bytes.len() == 2 {
        let a = bytes[0] as int;
        let b = bytes[1] as int;
        seq![
            b64_digit(a / 4, c62, c63),
            b64_digit((a % 4) * 16 + b / 16, c62, c63),
            b64_digit((b % 16) * 4, c62, c63),
        ] + if pad {
            seq!['=']
        } else {
            seq![]
        }
    } else {
        let a = bytes[0] as int;
        let b = bytes[1] as int;
        let c = bytes[2] as int;
        seq![
            b64_digit(a / 4, c62, c63),
            b64_digit((a % 4) * 16 + b / 16, c62, c63),
            b64_digit((b % 16) * 4 + c / 64, c62, c63),
            b64_digit(c % 64, c62, c63),
        ] + b64_s(bytes.skip(3), c62, c63, pad)
    }
}

/// Standard base64 with `=` padding (alphabet ending in `+` and `/`).
pub open spec fn base64_std(bytes: Seq<u8>) -> Seq<char> {
    b64_s(bytes, '+', '/', true)
}

/// URL-safe base64 without padding (alphabet ending in `-` and `_`).
pub open spec fn base64_url_s(bytes: Seq<u8>) -> Seq<char> {
    b64_s(bytes, '-', '_', false)
}

/// Whether a character belongs to the URL-safe base64 alphabet.
pub open spec fn url_safe_char(c: char) -> bool {
    ('A' <= c && c <= 'Z') || ('a' <= c && c <= 'z') || ('0' <= c && c <= '9') || c == '-' || c == '_'
}

proof fn lemma_url_digit(v: int)
    requires
        0 <= v < 64,
    ensures
        url_safe_char(b64_digit(v, '-', '_')),
{
    if v < 26 {
        assert((('A' as int) + v) as char == b64_digit(v, '-', '_'));
    }
}

/// URL-safe base64 of `n` bytes is `(4n + 2) / 3` characters, all of the
/// URL-safe alphabet.
pub proof fn lemma_base64_url_shape(bytes: Seq<u8>)
    ensures
        base64_url_s(bytes).len() == (4 * bytes.len() + 2) / 3,
        forall|i: int| 0 <= i < base64_url_s(bytes).len() ==> url_safe_char(#[trigger] base64_url_s(bytes)[i]),
    decreases bytes.len(),
{
    let s = base64_url_s(bytes);
    if bytes.len() == 0 {
    } else if bytes.len() == 1 {
        let a = bytes[0] as int;
        lemma_url_digit(a / 4);
        lemma_url_digit((a % 4) * 16);
    } else if bytes.len() == 2 {
        let a = bytes[0] as int;
        let b = bytes[1] as int;
        lemma_url_digit(a / 4);
        lemma_url_digit((a % 4) * 16 + b / 16);
        lemma_url_digit((b % 16) * 4);
    } else {
        let a = bytes[0] as int;
        let b = bytes[1] as int;
        let c = bytes[2] as int;
        lemma_url_digit(a / 4);
        lemma_url_digit((a % 4) * 16 + b / 16);
        lemma_url_digit((b % 16) * 4 + c / 64);
        lemma_url_digit(c % 64);
        let rest = bytes.skip(3);
        lemma_base64_url_shape(rest);
        let head = seq![
            b64_digit(a / 4, '-', '_'),
            b64_digit((a % 4) * 16 + b / 16, '-', '_'),
            b64_digit((b % 16) * 4 + c / 64, '-', '_'),
            b64_digit(c % 64, '-', '_'),
        ];
        assert(s == head + base64_url_s(rest));
        assert forall|i: int| 0 <= i < s.len() implies url_safe_char(#[trigger] s[i]) by {
            if i >= 4 {
                assert(s[i] == base64_url_s(rest)[i - 4]);
            }
        }
    }
}

} // verus!
