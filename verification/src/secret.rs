//! Random secret generation: hex, URL-safe base64 (no padding), plain
//! alphanumeric, or characters drawn from a custom set. Randomness comes
//! from the operating system through the `rand` crate.

use vstd::prelude::*;

use crate::b64::{base64_url_s, lemma_base64_url_shape, url_safe_char};
use crate::config::{SecretFormat, SecretPreset};
use crate::text::{chars_of, string_of};

verus! {

/// Parameters of one secret.
#[derive(Debug, Clone)]
pub struct SecretSpec {
    /// Characters (alnum or custom charset) or random bytes (hex, base64).
    pub length: usize,
    pub format: SecretFormat,
    /// A custom charset; when set it overrides `format`.
    pub charset: Option<String>,
}

impl Default for SecretSpec {
    fn default() -> (r: Self)
        ensures
            r.length == 32,
            r.format == SecretFormat::Base64,
            r.charset is None,
    {
        SecretSpec { length: 32, format: SecretFormat::Base64, charset: None }
    }
}

impl SecretSpec {
    /// The spec a configured preset describes.
    pub fn from_preset(p: &SecretPreset) -> (r: SecretSpec)
        ensures
            r.length == p.length,
            r.format == p.format,
            crate::changes::opt_view(r.charset) == crate::changes::opt_view(p.charset),
    {
        SecretSpec {
            length: p.length,
            format: p.format,
            charset: match &p.charset {
                Some(c) => Some(c.clone()),
                None => None,
            },
        }
    }
}

/// Why no secret could be made.
#[derive(Debug, Clone, Copy, PartialEq, Eq, Structural)]
pub enum SecretError {
    /// The length was zero.
    ZeroLength,
    /// The custom charset was empty.
    EmptyCharset,
    /// Not enough distinct values came out within the attempts allowed.
    NotUnique,
}

impl SecretError {
    /// The error message.
    pub fn message(self) -> (r: &'static str)
        ensures
            self == SecretError::ZeroLength ==> r@ == "secret length must be greater than zero"@,
            self == SecretError::EmptyCharset ==> r@ == "custom charset must not be empty"@,
            self == SecretError::NotUnique ==> r@ == "could not generate unique secrets; increase length or charset size"@,
    {
        match self {
            SecretError::ZeroLength => "secret length must be greater than zero",
            SecretError::EmptyCharset => "custom charset must not be empty",
            SecretError::NotUnique => "could not generate unique secrets; increase length or charset size",
        }
    }
}

/// The characters of the `alnum` format.
pub open spec fn alnum_s() -> Seq<char> {
    "ABCDEFGHIJKLMNOPQRSTUVWXYZabcdefghijklmnopqrstuvwxyz0123456789"@
}

/// A lowercase hex digit.
pub open spec fn hex_digit(d: int) -> char {
    if d < 10 {
        (('0' as int) + d) as char
    } else {
        (('a' as int) + d - 10) as char
    }
}

/// Lowercase hex text of bytes, two digits per byte.
pub open spec fn hex_s(bytes: Seq<u8>) -> Seq<char>
    decreases bytes.len(),
{
    if bytes.len() == 0 {
        seq![]
    } else {
        hex_s(bytes.drop_last()) + seq![hex_digit((bytes.last() / 16) as int), hex_digit((bytes.last() % 16) as int)]
    }
}

/// A uniformly random index below `n` (`rand::random_range(0..n)`).
/// Trusted: the index is below `n`; nothing else is stated of it.
#[verifier::external_body]
fn random_index(n: usize) -> (r: usize)
    requires
        n > 0,
    ensures
        r < n,
{
    rand::random_range(0..n)
}

/// A random byte (`rand::random::<u8>()`). Nothing is stated of its value.
#[verifier::external_body]
fn random_byte() -> (r: u8) {
    rand::random::<u8>()
}

/// `hex::encode`. Trusted: lowercase hex, two digits per byte, in order, as
/// the crate documents.
#[verifier::external_body]
fn hex_encode(bytes: &Vec<u8>) -> (r: String)
    ensures
        r@ == hex_s(bytes@),
{
    hex::encode(bytes)
}

/// `base64::engine::general_purpose::URL_SAFE_NO_PAD.encode`. Trusted: the
/// engine writes RFC 4648's URL-safe base64 of the bytes without padding,
/// as `base64_url_s` spells it out.
#[verifier::external_body]
fn base64_encode(bytes: &Vec<u8>) -> (r: String)
    ensures
        r@ == base64_url_s(bytes@),
{
    base64::Engine::encode(&base64::engine::general_purpose::URL_SAFE_NO_PAD, bytes)
}

fn random_bytes(n: usize) -> (r: Vec<u8>)
    ensures
        r@.len() == n,
{
    let mut out: Vec<u8> = Vec::new();
    let mut i: usize = 0;
    while i < n
        invariant
            i <= n,
            out@.len() == i,
        decreases n - i,
    {
        out.push(random_byte());
        i = i + 1;
    }
    out
}

fn pick(chars: &Vec<char>, n: usize) -> (r: Vec<char>)
    requires
        chars@.len() > 0,
    ensures
        r@.len() == n,
        forall|i: int| 0 <= i < n ==> chars@.contains(#[trigger] r@[i]),
{
    let mut out: Vec<char> = Vec::new();
    let mut i: usize = 0;
    while i < n
        invariant
            i <= n,
            out@.len() == i,
            chars@.len() > 0,
            forall|j: int| 0 <= j < i ==> chars@.contains(#[trigger] out@[j]),
        decreases n - i,
    {
        let k = random_index(chars.len());
        let c = chars[k];
        out.push(c);
        assert(chars@[k as int] == c);
        i = i + 1;
    }
    out
}

/// What a generated secret is, whatever the random draws were: `length`
/// characters of the custom charset when there is one, else of the `alnum`
/// characters, else the hex or URL-safe base64 text of `length` bytes.
pub open spec fn secret_ok(spec: SecretSpec, s: Seq<char>) -> bool {
    match spec.charset {
        Some(cs) => s.len() == spec.length && forall|i: int| 0 <= i < s.len() ==> cs@.contains(#[trigger] s[i]),
        None => match spec.format {
            SecretFormat::Alnum => s.len() == spec.length && forall|i: int|
                0 <= i < s.len() ==> alnum_s().contains(#[trigger] s[i]),
            SecretFormat::Hex => exists|b: Seq<u8>| b.len() == spec.length && s == hex_s(b),
            SecretFormat::Base64 => exists|b: Seq<u8>| b.len() == spec.length && s == base64_url_s(b),
        },
    }
}

/// A base64 secret of `length` bytes, drawn without a custom charset, is
/// `(4 * length + 2) / 3` characters of the URL-safe alphabet, unpadded.
pub proof fn law_base64_secret_shape(spec: SecretSpec, s: Seq<char>)
    requires
        spec.charset is None,
        spec.format == SecretFormat::Base64,
        secret_ok(spec, s),
    ensures
        s.len() == (4 * spec.length + 2) / 3,
        forall|i: int| 0 <= i < s.len() ==> url_safe_char(#[trigger] s[i]),
{
    let b = choose|b: Seq<u8>| b.len() == spec.length && s == base64_url_s(b);
    lemma_base64_url_shape(b);
}

/// Generate one secret. A zero length, or an empty custom charset, is an
/// error.
pub fn generate(spec: &SecretSpec) -> (r: Result<String, SecretError>)
    ensures
        spec.length == 0 ==> r == Err::<String, SecretError>(SecretError::ZeroLength),
        spec.length > 0 && (spec.charset matches Some(c) && c@.len() == 0) ==> r == Err::<String, SecretError>(SecretError::EmptyCharset),
        spec.length > 0 && !(spec.charset matches Some(c) && c@.len() == 0) ==> (r matches Ok(s) && secret_ok(*spec, s@)),
{
    if spec.length == 0 {
        return Err(SecretError::ZeroLength);
    }
    match &spec.charset {
        Some(cs) => {
            let chars = chars_of(cs.as_str());
            if chars.len() == 0 {
                return Err(SecretError::EmptyCharset);
            }
            Ok(string_of(&pick(&chars, spec.length)))
        },
        None => match spec.format {
            SecretFormat::Alnum => {
                let chars = chars_of("ABCDEFGHIJKLMNOPQRSTUVWXYZabcdefghijklmnopqrstuvwxyz0123456789");
                proof {
                    reveal_strlit("ABCDEFGHIJKLMNOPQRSTUVWXYZabcdefghijklmnopqrstuvwxyz0123456789");
                }
                Ok(string_of(&pick(&chars, spec.length)))
            },
            SecretFormat::Hex => {
                let b = random_bytes(spec.length);
                Ok(hex_encode(&b))
            },
            SecretFormat::Base64 => {
                let b = random_bytes(spec.length);
                Ok(base64_encode(&b))
            },
        },
    }
}

/// The distinct values among the first `n` draws, in the order they first
/// appear.
pub open spec fn distinct_draws(d: Seq<Seq<char>>, n: int) -> Seq<Seq<char>>
    decreases n,
{
    if n <= 0 {
        seq![]
    } else {
        let p = distinct_draws(d, n - 1);
        if p.contains(d[n - 1]) {
            p
        } else {
            p.push(d[n - 1])
        }
    }
}

/// How many draws are made for `count` distinct secrets before giving up:
/// `count * 64` (saturating), at least 128.
pub open spec fn draw_limit(count: nat) -> int {
    let m: int = if count > usize::MAX / 64 {
        usize::MAX as int
    } else {
        (count * 64) as int
    };
    if m > 128 {
        m
    } else {
        128
    }
}

/// The first `count` distinct draws, when they all occur within the first
/// `draw_limit(count)` draws.
pub open spec fn unique_s(d: Seq<Seq<char>>, count: nat) -> Option<Seq<Seq<char>>> {
    let w = if d.len() < draw_limit(count) {
        d.len() as int
    } else {
        draw_limit(count)
    };
    let p = distinct_draws(d, w);
    if p.len() >= count {
        Some(p.take(count as int))
    } else {
        None
    }
}

/// The outcome of picking `count` distinct secrets from the draws `d`:
/// the first `count` distinct ones, or `NotUnique` when they do not all
/// occur within the draw limit.
pub open spec fn unique_outcome(d: Seq<Seq<char>>, count: nat, r: Result<Vec<String>, SecretError>) -> bool {
    match r {
        Ok(v) => unique_s(d, count) == Some(crate::parser::strings_view(v@)),
        Err(e) => e == SecretError::NotUnique && unique_s(d, count) is None,
    }
}

/// Distinct draws grow by extension: fewer draws give a prefix.
proof fn lemma_distinct_prefix(d: Seq<Seq<char>>, i: int, j: int)
    requires
        0 <= i <= j,
    ensures
        distinct_draws(d, i).len() <= distinct_draws(d, j).len(),
        distinct_draws(d, j).take(distinct_draws(d, i).len() as int) == distinct_draws(d, i),
    decreases j - i,
{
    if i < j {
        lemma_distinct_prefix(d, i, j - 1);
        let p = distinct_draws(d, j - 1);
        let a = distinct_draws(d, i);
        if !p.contains(d[j - 1]) {
            assert(p.push(d[j - 1]).take(a.len() as int) =~= p.take(a.len() as int));
        }
    } else {
        assert(distinct_draws(d, i).take(distinct_draws(d, i).len() as int) =~= distinct_draws(d, i));
    }
}

/// Distinct draws hold no value twice, and only drawn values.
proof fn lemma_distinct_draws(d: Seq<Seq<char>>, n: int)
    requires
        0 <= n <= d.len(),
    ensures
        distinct_draws(d, n).no_duplicates(),
        forall|k: int| 0 <= k < distinct_draws(d, n).len() ==> exists|j: int| 0 <= j < n && d[j] == #[trigger] distinct_draws(d, n)[k],
    decreases n,
{
    if n > 0 {
        lemma_distinct_draws(d, n - 1);
        let p = distinct_draws(d, n - 1);
        let q = distinct_draws(d, n);
        assert forall|k: int| 0 <= k < q.len() implies exists|j: int| 0 <= j < n && d[j] == #[trigger] q[k] by {
            if k < p.len() {
                assert(q[k] == p[k]);
                let j = choose|j: int| 0 <= j < n - 1 && d[j] == #[trigger] p[k];
                assert(d[j] == q[k]);
            } else {
                assert(d[n - 1] == q[k]);
            }
        }
    }
}

/// The largest usize below the draw limit of `count`.
fn draw_limit_of(count: usize) -> (r: usize)
    ensures
        r as int == draw_limit(count as nat),
{
    let m: usize = if count > usize::MAX / 64 {
        usize::MAX
    } else {
        count * 64
    };
    if m > 128 {
        m
    } else {
        128
    }
}

/// Pick `count` distinct secrets from a sequence of draws, as
/// `generate_unique` does: the first `count` distinct draws, in draw order,
/// when they all occur within the first `max(count * 64, 128)` draws (the
/// product saturating); otherwise `NotUnique`.
pub fn unique_from(draws: &Vec<String>, count: usize) -> (r: Result<Vec<String>, SecretError>)
    ensures
        unique_outcome(crate::parser::strings_view(draws@), count as nat, r),
{
    let ghost d = crate::parser::strings_view(draws@);
    let limit = draw_limit_of(count);
    let w = if draws.len() < limit {
        draws.len()
    } else {
        limit
    };
    let mut out: Vec<String> = Vec::new();
    let mut i: usize = 0;
    while i < w && out.len() < count
        invariant
            i <= w,
            w <= draws.len(),
            d == crate::parser::strings_view(draws@),
            crate::parser::strings_view(out@) == distinct_draws(d, i as int),
            out@.len() <= count,
        decreases w - i,
    {
        let ghost before = crate::parser::strings_view(out@);
        assert(d[i as int] == draws@[i as int]@);
        if !crate::context::has_string(&out, draws[i].as_str()) {
            out.push(draws[i].clone());
            assert(out@[out@.len() - 1]@ == draws@[i as int]@);
            assert(crate::parser::strings_view(out@) =~= before.push(d[i as int]));
        }
        i = i + 1;
    }
    proof {
        lemma_distinct_prefix(d, i as int, w as int);
    }
    if out.len() == count {
        proof {
            let p = distinct_draws(d, w as int);
            assert(p.take(count as int) =~= crate::parser::strings_view(out@));
        }
        Ok(out)
    } else {
        Err(SecretError::NotUnique)
    }
}

/// `count` pairwise distinct secrets. Secrets are drawn until `count`
/// distinct ones have come up or `max(count * 64, 128)` draws (the product
/// saturating) have been made; the result is what `unique_from` picks from
/// those draws.
pub fn generate_unique(spec: &SecretSpec, count: usize) -> (r: Result<Vec<String>, SecretError>)
    ensures
        r matches Ok(v) ==> v@.len() == count && (forall|i: int, j: int|
            0 <= i < j < v@.len() ==> (#[trigger] v@[i])@ != (#[trigger] v@[j])@) && forall|i: int|
            0 <= i < v@.len() ==> secret_ok(*spec, (#[trigger] v@[i])@),
        count == 0 ==> (r matches Ok(v) && v@.len() == 0),
        spec.length == 0 && count > 0 ==> r == Err::<Vec<String>, SecretError>(SecretError::ZeroLength),
        spec.length > 0 && (spec.charset matches Some(c) && c@.len() == 0) && count > 0 ==> r == Err::<
            Vec<String>,
            SecretError,
        >(SecretError::EmptyCharset),
        r matches Err(e) ==> (e == SecretError::NotUnique || (e == SecretError::ZeroLength && spec.length == 0)
            || (e == SecretError::EmptyCharset && (spec.charset matches Some(c) && c@.len() == 0))),
        (spec.length > 0 && !(spec.charset matches Some(c) && c@.len() == 0)) || count == 0 ==> exists|d: Seq<Seq<char>>|
            (forall|i: int| 0 <= i < d.len() ==> secret_ok(*spec, #[trigger] d[i])) && #[trigger] unique_outcome(d, count as nat, r),
{
    let limit = draw_limit_of(count);
    let mut draws: Vec<String> = Vec::new();
    let mut out: Vec<String> = Vec::new();
    while out.len() < count && draws.len() < limit
        invariant
            draws@.len() <= limit,
            limit as int == draw_limit(count as nat),
            crate::parser::strings_view(out@) == distinct_draws(crate::parser::strings_view(draws@), draws@.len() as int),
            forall|i: int| 0 <= i < draws@.len() ==> secret_ok(*spec, (#[trigger] draws@[i])@),
            spec.length == 0 ==> draws@.len() == 0,
            (spec.charset matches Some(c) && c@.len() == 0) ==> draws@.len() == 0,
        decreases limit - draws@.len(),
    {
        let candidate = match generate(spec) {
            Ok(c) => c,
            Err(e) => {
                return Err(e);
            },
        };
        let ghost d0 = crate::parser::strings_view(draws@);
        let ghost before = crate::parser::strings_view(out@);
        if !crate::context::has_string(&out, candidate.as_str()) {
            out.push(candidate.clone());
            assert(crate::parser::strings_view(out@) =~= before.push(candidate@));
        }
        draws.push(candidate);
        proof {
            let d1 = crate::parser::strings_view(draws@);
            assert(d1 =~= d0.push(candidate@));
            assert(d1[d0.len() as int] == candidate@);
            assert forall|n: int| 0 <= n <= d0.len() implies distinct_draws(d1, n) == distinct_draws(d0, n) by {
                lemma_distinct_same(d0, d1, n);
            }
        }
    }
    let ghost d = crate::parser::strings_view(draws@);
    let r = unique_from(&draws, count);
    proof {
        assert forall|i: int| 0 <= i < d.len() implies secret_ok(*spec, #[trigger] d[i]) by {
            assert(d[i] == draws@[i]@);
        }
        match &r {
            Ok(v) => {
                let w = if d.len() < draw_limit(count as nat) { d.len() as int } else { draw_limit(count as nat) };
                let p = distinct_draws(d, w);
                lemma_distinct_draws(d, w);
                let vv = crate::parser::strings_view(v@);
                assert(unique_s(d, count as nat) == Some(vv));
                assert(p.len() >= count);
                assert(vv == p.take(count as int));
                assert(v@.len() == vv.len());
                assert forall|i: int, j: int| 0 <= i < j < v@.len() implies (#[trigger] v@[i])@ != (#[trigger] v@[j])@ by {
                    assert(vv[i] == v@[i]@ && vv[j] == v@[j]@);
                    assert(p.take(count as int)[i] == p[i] && p.take(count as int)[j] == p[j]);
                }
                assert forall|i: int| 0 <= i < v@.len() implies secret_ok(*spec, (#[trigger] v@[i])@) by {
                    assert(vv[i] == v@[i]@);
                    assert(p.take(count as int)[i] == p[i]);
                    let j = choose|j: int| 0 <= j < w && d[j] == #[trigger] p[i];
                }
            },
            Err(_) => {},
        }
    }
    r
}

/// Distinct draws depend only on the draws counted.
proof fn lemma_distinct_same(a: Seq<Seq<char>>, b: Seq<Seq<char>>, n: int)
    requires
        0 <= n <= a.len(),
        n <= b.len(),
        forall|i: int| 0 <= i < n ==> a[i] == b[i],
    ensures
        distinct_draws(a, n) == distinct_draws(b, n),
    decreases n,
{
    if n > 0 {
        lemma_distinct_same(a, b, n - 1);
    }
}


/// The spec for generating `key`'s secret: the configured preset (or the
/// defaults), then each option given on the command line.
pub fn resolve_spec(
    config: &Option<crate::config::Config>,
    key: &str,
    length: Option<usize>,
    format: Option<SecretFormat>,
    charset: Option<String>,
) -> (r: SecretSpec)
    requires
        config matches Some(c) ==> c.wf(),
    ensures
        ({
            let preset = match config {
                Some(c) => match crate::config::entry_index(c.secrets@, key@) {
                    Some(i) => Some(c.secrets@[i].1),
                    None => None,
                },
                None => None,
            };
            &&& r.length == match length {
                Some(l) => l,
                None => match preset {
                    Some(p) => p.length,
                    None => 32,
                },
            }
            &&& r.format == match format {
                Some(f) => f,
                None => match preset {
                    Some(p) => p.format,
                    None => SecretFormat::Base64,
                },
            }
            &&& crate::changes::opt_view(r.charset) == match charset {
                Some(c) => Some(c@),
                None => match preset {
                    Some(p) => crate::changes::opt_view(p.charset),
                    None => None,
                },
            }
        }),
{
    let mut spec = match config {
        Some(c) => match c.secret_preset(key) {
            Some(p) => SecretSpec::from_preset(p),
            None => SecretSpec::default(),
        },
        None => SecretSpec::default(),
    };
    match length {
        Some(l) => {
            spec.length = l;
        },
        None => {},
    }
    match format {
        Some(f) => {
            spec.format = f;
        },
        None => {},
    }
    match charset {
        Some(cs) => {
            spec.charset = Some(cs);
        },
        None => {},
    }
    spec
}

/// Whether a target is an example file: its file name contains `.example`.
/// A generated secret never goes into such a file.
pub open spec fn is_example_target(t: crate::edit::Target) -> bool {
    crate::text::contains_s(crate::edit::name_of_s(t.file.display@), ".example"@)
}

/// Whether a target is an example file.
fn example_target(t: &crate::edit::Target) -> (r: bool)
    ensures
        r == is_example_target(*t),
{
    let name = crate::edit::name_of(&chars_of(t.file.display.as_str()));
    crate::text::contains(&name, chars_of(".example").as_slice())
}

/// The number of targets among the first `n` that are no example files.
pub open spec fn real_before(targets: Seq<crate::edit::Target>, n: int) -> int
    decreases n,
{
    if n <= 0 {
        0
    } else {
        real_before(targets, n - 1) + if is_example_target(targets[n - 1]) {
            0int
        } else {
            1int
        }
    }
}

/// The value each target gets: empty for an example file (a real secret
/// never goes there); otherwise, with `unique`, the next value of `pool` in
/// target order (empty if the pool runs out), else `shared`.
pub open spec fn value_for_s(targets: Seq<crate::edit::Target>, i: int, unique: bool, pool: Seq<Seq<char>>, shared: Seq<char>) -> Seq<char> {
    if is_example_target(targets[i]) {
        seq![]
    } else if unique {
        let k = real_before(targets, i);
        if k < pool.len() {
            pool[k]
        } else {
            seq![]
        }
    } else {
        shared
    }
}

/// The value written to each target.
pub fn assign_values(targets: &Vec<crate::edit::Target>, unique: bool, pool: &Vec<String>, shared: &str) -> (r: Vec<String>)
    ensures
        r@.len() == targets@.len(),
        forall|i: int| 0 <= i < targets@.len() ==> (#[trigger] r@[i])@ == value_for_s(targets@, i, unique, crate::parser::strings_view(pool@), shared@),
{
    let mut out: Vec<String> = Vec::new();
    let mut next: usize = 0;
    let mut i: usize = 0;
    while i < targets.len()
        invariant
            i <= targets.len(),
            out@.len() == i,
            next as int == real_before(targets@, i as int),
            next <= i,
            forall|j: int| 0 <= j < i ==> (#[trigger] out@[j])@ == value_for_s(targets@, j, unique, crate::parser::strings_view(pool@), shared@),
        decreases targets.len() - i,
    {
        let t = &targets[i];
        if example_target(t) {
            out.push(String::new());
        } else {
            if unique {
                if next < pool.len() {
                    out.push(pool[next].clone());
                } else {
                    out.push(String::new());
                }
            } else {
                out.push(shared.to_owned());
            }
            next = next + 1;
        }
        i = i + 1;
    }
    out
}

/// Whether secrets can be drawn for `spec`: a positive length and no empty
/// custom charset.
pub open spec fn drawable(spec: SecretSpec) -> bool {
    spec.length > 0 && !(spec.charset matches Some(c) && c@.len() == 0)
}

/// The values for `targets` when the distinct secrets are picked from the
/// draws `d`: the picked secrets in target order, example files empty; or
/// `NotUnique` when too few distinct draws came up.
pub open spec fn unique_values_outcome(targets: Seq<crate::edit::Target>, d: Seq<Seq<char>>, r: Result<Vec<String>, SecretError>) -> bool {
    match unique_s(d, real_before(targets, targets.len() as int) as nat) {
        Some(pool) => r matches Ok(v) && v@.len() == targets.len() && forall|i: int|
            0 <= i < targets.len() ==> (#[trigger] v@[i])@ == value_for_s(targets, i, true, pool, seq![]),
        None => r == Err::<Vec<String>, SecretError>(SecretError::NotUnique),
    }
}

/// The values to write when generating a secret for `targets`: one shared
/// secret, or with `unique` one distinct secret per non-example target;
/// example files get the empty value.
pub fn secret_values(targets: &Vec<crate::edit::Target>, spec: &SecretSpec, unique: bool) -> (r: Result<Vec<String>, SecretError>)
    ensures
        r matches Ok(v) ==> v@.len() == targets@.len(),
        r matches Ok(v) ==> forall|i: int|
            0 <= i < targets@.len() ==> if is_example_target(targets@[i]) {
                (#[trigger] v@[i])@ == Seq::<char>::empty()
            } else {
                secret_ok(*spec, v@[i]@)
            },
        r matches Ok(v) ==> (!unique ==> forall|i: int, j: int|
            0 <= i < targets@.len() && 0 <= j < targets@.len() && !is_example_target(targets@[i])
                && !is_example_target(targets@[j]) ==> (#[trigger] v@[i])@ == (#[trigger] v@[j])@),
        r matches Ok(v) ==> (unique ==> forall|i: int, j: int|
            0 <= i < j < targets@.len() && !is_example_target(targets@[i])
                && !is_example_target(targets@[j]) ==> (#[trigger] v@[i])@ != (#[trigger] v@[j])@),
        spec.length == 0 && (!unique || exists|i: int| 0 <= i < targets@.len() && !is_example_target(targets@[i]))
            ==> r == Err::<Vec<String>, SecretError>(SecretError::ZeroLength),
        spec.length > 0 && (spec.charset matches Some(c) && c@.len() == 0) && (!unique || exists|i: int|
            0 <= i < targets@.len() && !is_example_target(targets@[i]))
            ==> r == Err::<Vec<String>, SecretError>(SecretError::EmptyCharset),
        !unique && spec.length > 0 && !(spec.charset matches Some(c) && c@.len() == 0) ==> r is Ok,
        unique && (forall|i: int| 0 <= i < targets@.len() ==> is_example_target(targets@[i]))
            ==> r is Ok,
        r matches Err(e) ==> (e == SecretError::NotUnique || (e == SecretError::ZeroLength && spec.length == 0)
            || (e == SecretError::EmptyCharset && (spec.charset matches Some(c) && c@.len() == 0))),
        unique && spec.length > 0 && !(spec.charset matches Some(c) && c@.len() == 0) ==> exists|d: Seq<Seq<char>>|
            (forall|i: int| 0 <= i < d.len() ==> secret_ok(*spec, #[trigger] d[i])) && #[trigger] unique_values_outcome(targets@, d, r),
        !unique && spec.length > 0 && !(spec.charset matches Some(c) && c@.len() == 0) ==> exists|shared: Seq<char>|
            secret_ok(*spec, shared) && (r matches Ok(v) && v@.len() == targets@.len() && forall|i: int|
            0 <= i < targets@.len() ==> (#[trigger] v@[i])@ == value_for_s(targets@, i, false, seq![], shared)),
{
    let mut reals: usize = 0;
    let mut i: usize = 0;
    while i < targets.len()
        invariant
            i <= targets.len(),
            reals as int == real_before(targets@, i as int),
            reals <= i,
        decreases targets.len() - i,
    {
        if !example_target(&targets[i]) {
            reals = reals + 1;
        }
        i = i + 1;
    }
    proof {
        lemma_real_before_mono(targets@);
        if exists|i: int| 0 <= i < targets@.len() && !is_example_target(targets@[i]) {
            let i = choose|i: int| 0 <= i < targets@.len() && !is_example_target(targets@[i]);
            lemma_real_before_le(targets@, i + 1, targets@.len() as int);
            lemma_real_before_le(targets@, 0, i);
            assert(reals > 0);
        }
    }
    if unique {
        let g = generate_unique(spec, reals);
        let ghost gr = g;
        let pool = match g {
            Ok(p) => p,
            Err(e) => {
                proof {
                    if forall|i: int| 0 <= i < targets@.len() ==> is_example_target(targets@[i]) {
                        lemma_real_before_none(targets@, targets@.len() as int);
                    }
                    if drawable(*spec) {
                        let d = choose|d: Seq<Seq<char>>| (forall|i: int| 0 <= i < d.len() ==> secret_ok(*spec, #[trigger] d[i])) && #[trigger] unique_outcome(d, reals as nat, gr);
                        assert(unique_values_outcome(targets@, d, Err::<Vec<String>, SecretError>(e)));
                    }
                }
                return Err(e);
            },
        };
        let v = assign_values(targets, true, &pool, "");
        proof {
            if drawable(*spec) {
                let d = choose|d: Seq<Seq<char>>| (forall|i: int| 0 <= i < d.len() ==> secret_ok(*spec, #[trigger] d[i])) && #[trigger] unique_outcome(d, reals as nat, gr);
                assert(unique_values_outcome(targets@, d, Ok::<Vec<String>, SecretError>(v)));
            }
            assert forall|j: int| 0 <= j < targets@.len() && !is_example_target(targets@[j]) implies real_before(targets@, j) < pool@.len() by {
                lemma_real_before_le(targets@, j + 1, targets@.len() as int);
            }
            assert forall|i: int| 0 <= i < targets@.len() implies if is_example_target(targets@[i]) {
                (#[trigger] v@[i])@ == Seq::<char>::empty()
            } else {
                secret_ok(*spec, v@[i]@)
            } by {
                if !is_example_target(targets@[i]) {
                    let a = real_before(targets@, i);
                    lemma_real_before_le(targets@, 0, i);
                    lemma_real_before_le(targets@, i + 1, targets@.len() as int);
                    assert(crate::parser::strings_view(pool@)[a] == pool@[a]@);
                }
            }
            assert forall|i: int, j: int|
                0 <= i < j < targets@.len() && !is_example_target(targets@[i])
                    && !is_example_target(targets@[j]) implies (#[trigger] v@[i])@ != (#[trigger] v@[j])@ by {
                let a = real_before(targets@, i);
                let b = real_before(targets@, j);
                lemma_real_before_le(targets@, 0, i);
                lemma_real_before_le(targets@, j + 1, targets@.len() as int);
                assert(a < b);
                assert(crate::parser::strings_view(pool@)[a] == pool@[a]@);
                assert(crate::parser::strings_view(pool@)[b] == pool@[b]@);
            }
        }
        Ok(v)
    } else {
        let shared = match generate(spec) {
            Ok(x) => x,
            Err(e) => {
                return Err(e);
            },
        };
        let none: Vec<String> = Vec::new();
        let v = assign_values(targets, false, &none, shared.as_str());
        Ok(v)
    }
}

proof fn lemma_real_before_none(t: Seq<crate::edit::Target>, n: int)
    requires
        0 <= n <= t.len(),
        forall|i: int| 0 <= i < t.len() ==> is_example_target(t[i]),
    ensures
        real_before(t, n) == 0,
    decreases n,
{
    if n > 0 {
        lemma_real_before_none(t, n - 1);
    }
}

proof fn lemma_real_before_le(t: Seq<crate::edit::Target>, a: int, b: int)
    requires
        0 <= a <= b <= t.len(),
    ensures
        real_before(t, a) <= real_before(t, b),
    decreases b - a,
{
    if a < b {
        lemma_real_before_le(t, a, b - 1);
    }
}

proof fn lemma_real_before_mono(t: Seq<crate::edit::Target>)
    ensures
        forall|i: int, j: int|
            0 <= i < j <= t.len() && !is_example_target(t[i]) ==> #[trigger] real_before(t, i)
                < #[trigger] real_before(t, j),
{
    assert forall|i: int, j: int|
        0 <= i < j <= t.len() && !is_example_target(t[i]) implies #[trigger] real_before(t, i)
            < #[trigger] real_before(t, j) by {
        lemma_real_before_le(t, i + 1, j);
    }
}

} // verus!
