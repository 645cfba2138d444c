//! What every command resolves first: the configuration in use, the
//! services, and the service/file-kind filters; plus the skip-file patterns
//! shared by the scanning commands.

use std::path::PathBuf;

use vstd::prelude::*;

use crate::color::{default_colors, ColorConfig};
use crate::config::Config;
use crate::model::{ConfigSource, FileKind, Service};
use crate::parser::strings_view;
use crate::pattern::{glob_match, glob_matches, glob_valid};
use crate::text::{chars_of, eq_chars, lower, lower_s, string_of};

verus! {

/// The configuration, services and base directory a command works on.
pub struct Context {
    pub source: ConfigSource,
    pub config: Option<Config>,
    pub services: Vec<Service>,
    /// The directory holding `nv.yml`, or the working directory.
    pub base: PathBuf,
}

/// A file kind label that names no kind.
#[derive(Debug, PartialEq, Eq)]
pub struct UnknownKind {
    /// The label, lowercased.
    pub label: String,
}

impl UnknownKind {
    /// The error message.
    pub fn message(&self) -> (r: String)
        ensures
            r@ == "unknown file kind '"@ + self.label@ + "' (expected: dotenv, dotenv_example, configmap, secret)"@,
    {
        let mut out = chars_of("unknown file kind '");
        crate::text::append(&mut out, chars_of(self.label.as_str()).as_slice());
        crate::text::append(&mut out, chars_of("' (expected: dotenv, dotenv_example, configmap, secret)").as_slice());
        string_of(&out)
    }
}

/// The kind a label names, compared in ASCII lowercase.
pub open spec fn kind_of_label(l: Seq<char>) -> Option<FileKind> {
    if l == "dotenv"@ || l == "env"@ || l == ".env"@ {
        Some(FileKind::Dotenv)
    } else if l == "dotenv_example"@ || l == "example"@ || l == ".env.example"@ {
        Some(FileKind::DotenvExample)
    } else if l == "configmap"@ || l == "config"@ {
        Some(FileKind::ConfigMap)
    } else if l == "secret"@ || l == "secrets"@ {
        Some(FileKind::Secret)
    } else {
        None
    }
}

/// Parse a file kind label (`dotenv`, `env`, `.env`, `dotenv_example`,
/// `example`, `.env.example`, `configmap`, `config`, `secret`, `secrets`),
/// ignoring ASCII case.
pub fn parse_kind(label: &str) -> (r: Result<FileKind, UnknownKind>)
    ensures
        match r {
            Ok(k) => kind_of_label(lower_s(label@)) == Some(k),
            Err(e) => kind_of_label(lower_s(label@)) is None && e.label@ == lower_s(label@),
        },
{
    let l = lower(&chars_of(label));
    if eq_chars(&l, &chars_of("dotenv")) || eq_chars(&l, &chars_of("env")) || eq_chars(&l, &chars_of(".env")) {
        Ok(FileKind::Dotenv)
    } else if eq_chars(&l, &chars_of("dotenv_example")) || eq_chars(&l, &chars_of("example"))
        || eq_chars(&l, &chars_of(".env.example")) {
        Ok(FileKind::DotenvExample)
    } else if eq_chars(&l, &chars_of("configmap")) || eq_chars(&l, &chars_of("config")) {
        Ok(FileKind::ConfigMap)
    } else if eq_chars(&l, &chars_of("secret")) || eq_chars(&l, &chars_of("secrets")) {
        Ok(FileKind::Secret)
    } else {
        Err(UnknownKind { label: string_of(&l) })
    }
}

/// A copy of a list of strings.
pub fn copy_strings(v: &Vec<String>) -> (r: Vec<String>)
    ensures
        strings_view(r@) == strings_view(v@),
{
    let mut out: Vec<String> = Vec::new();
    let mut i: usize = 0;
    while i < v.len()
        invariant
            i <= v.len(),
            strings_view(out@) == strings_view(v@.take(i as int)),
        decreases v.len() - i,
    {
        let s = v[i].clone();
        let ghost before = out@;
        out.push(s);
        assert(strings_view(out@) =~= strings_view(before).push(v@[i as int]@));
        assert(v@.take(i + 1) =~= v@.take(i as int).push(v@[i as int]));
        assert(strings_view(v@.take(i + 1)) =~= strings_view(v@.take(i as int)).push(v@[i as int]@));
        i = i + 1;
    }
    assert(v@.take(v@.len() as int) =~= v@);
    out
}

impl Context {
    /// The services to restrict to: none (everything) with `all`, else the
    /// `--service` names.
    pub fn service_filter(&self, all: bool, services: &Vec<String>) -> (r: Vec<String>)
        ensures
            all ==> r@.len() == 0,
            !all ==> strings_view(r@) == strings_view(services@),
    {
        if all {
            Vec::new()
        } else {
            copy_strings(services)
        }
    }

    /// The file kinds to restrict to: none (everything) with `all`, else the
    /// `--file` labels parsed in order; the first unknown label is an error.
    pub fn kind_filter(&self, all: bool, files: &Vec<String>) -> (r: Result<Vec<FileKind>, UnknownKind>)
        ensures
            all ==> (r matches Ok(v) && v@.len() == 0),
            !all ==> match r {
                Ok(v) => v@.len() == files@.len() && forall|i: int|
                    0 <= i < files@.len() ==> kind_of_label(lower_s(#[trigger] files@[i]@)) == Some(v@[i]),
                Err(e) => exists|i: int|
                    0 <= i < files@.len() && kind_of_label(lower_s(#[trigger] files@[i]@)) is None
                        && e.label@ == lower_s(files@[i]@) && forall|j: int|
                        0 <= j < i ==> kind_of_label(lower_s(#[trigger] files@[j]@)) is Some,
            },
    {
        if all {
            return Ok(Vec::new());
        }
        let mut out: Vec<FileKind> = Vec::new();
        let mut i: usize = 0;
        while i < files.len()
            invariant
                !all,
                i <= files.len(),
                out@.len() == i,
                forall|j: int| 0 <= j < i ==> kind_of_label(lower_s(#[trigger] files@[j]@)) == Some(out@[j]),
            decreases files.len() - i,
        {
            match parse_kind(files[i].as_str()) {
                Ok(k) => out.push(k),
                Err(e) => {
                    return Err(e);
                },
            }
            i = i + 1;
        }
        Ok(out)
    }

    /// The output colors: the configured ones, else the defaults.
    pub fn colors(&self) -> (r: ColorConfig)
        ensures
            r == match self.config {
                Some(c) => c.colors,
                None => default_colors(),
            },
    {
        match &self.config {
            Some(c) => c.colors,
            None => ColorConfig::default(),
        }
    }
}

/// Whether some valid pattern of `skip` matches the relative path or the
/// bare file name.
pub open spec fn skip_matches(relative: Seq<char>, name: Seq<char>, skip: Seq<Seq<char>>) -> bool {
    exists|i: int|
        0 <= i < skip.len() && glob_valid(#[trigger] skip[i]) && (glob_matches(skip[i], relative)
            || glob_matches(skip[i], name))
}

/// Whether a file matches any skip pattern: `*` spans no `/`, `**` spans
/// directories; each pattern is tried on the path relative to the service
/// root and on the bare file name. Patterns that do not compile are
/// ignored.
pub fn matches_skip_pattern(relative_str: &str, name: &str, skip_files: &Vec<String>) -> (r: bool)
    ensures
        r == skip_matches(relative_str@, name@, strings_view(skip_files@)),
{
    let ghost sv = strings_view(skip_files@);
    let mut i: usize = 0;
    while i < skip_files.len()
        invariant
            i <= skip_files.len(),
            sv == strings_view(skip_files@),
            forall|j: int|
                0 <= j < i ==> !(glob_valid(#[trigger] sv[j]) && (glob_matches(sv[j], relative_str@)
                    || glob_matches(sv[j], name@))),
        decreases skip_files.len() - i,
    {
        let p = skip_files[i].as_str();
        assert(sv[i as int] == p@);
        let a = glob_match(p, relative_str);
        let b = glob_match(p, name);
        match (a, b) {
            (Ok(x), Ok(y)) => {
                if x || y {
                    return true;
                }
            },
            _ => {},
        }
        i = i + 1;
    }
    false
}

/// Whether a file is skipped, given its path relative to the service root
/// and its bare name.
pub fn file_is_skipped(relative: &str, name: &str, skip_files: &Vec<String>) -> (r: bool)
    ensures
        r == skip_matches(relative@, name@, strings_view(skip_files@)),
{
    matches_skip_pattern(relative, name, skip_files)
}

/// Whether `s` is in the list.
pub fn has_string(v: &Vec<String>, s: &str) -> (r: bool)
    ensures
        r == strings_view(v@).contains(s@),
{
    let k = chars_of(s);
    let ghost sv = strings_view(v@);
    let mut i: usize = 0;
    while i < v.len()
        invariant
            i <= v.len(),
            sv == strings_view(v@),
            k@ == s@,
            forall|j: int| 0 <= j < i ==> sv[j] != s@,
        decreases v.len() - i,
    {
        if eq_chars(&chars_of(v[i].as_str()), &k) {
            assert(sv[i as int] == s@);
            return true;
        }
        i = i + 1;
    }
    false
}

/// Add `s` to a list of distinct strings unless it is there.
pub fn insert_string(v: &mut Vec<String>, s: &str)
    requires
        strings_view(old(v)@).no_duplicates(),
    ensures
        strings_view(final(v)@).no_duplicates(),
        strings_view(final(v)@).to_set() == strings_view(old(v)@).to_set().insert(s@),
{
    if !has_string(v, s) {
        let ghost before = strings_view(v@);
        v.push(s.to_owned());
        assert(strings_view(v@) =~= before.push(s@));
        proof {
            before.lemma_push_to_set_commute(s@);
            assert forall|i: int, j: int| 0 <= i < j < before.push(s@).len() implies before.push(s@)[i] != before.push(s@)[j] by {
                if j == before.len() {
                    assert(before[i] != s@) by {
                        if before[i] == s@ {
                            assert(before.contains(s@));
                        }
                    }
                }
            }
        }
    }
}

/// The distinct skip patterns configured for a service: empty without a
/// configuration, else the given configured entries, each once.
pub fn build_skip_files(config: &Option<Config>, configured: &Vec<String>) -> (r: Vec<String>)
    ensures
        strings_view(r@).no_duplicates(),
        config is None ==> r@.len() == 0,
        config is Some ==> strings_view(r@).to_set() == strings_view(configured@).to_set(),
{
    let mut skip: Vec<String> = Vec::new();
    if config.is_some() {
        let ghost cv = strings_view(configured@);
        let mut i: usize = 0;
        assert(strings_view(skip@).to_set() =~= cv.take(0).to_set());
        while i < configured.len()
            invariant
                i <= configured.len(),
                cv == strings_view(configured@),
                strings_view(skip@).no_duplicates(),
                strings_view(skip@).to_set() == cv.take(i as int).to_set(),
            decreases configured.len() - i,
        {
            insert_string(&mut skip, configured[i].as_str());
            proof {
                assert(cv.take(i + 1) =~= cv.take(i as int).push(cv[i as int]));
                cv.take(i as int).lemma_push_to_set_commute(cv[i as int]);
            }
            i = i + 1;
        }
        assert(cv.take(configured.len() as int) =~= cv);
    }
    skip
}

/// An answer to a yes/no question, trimmed and in ASCII lowercase.
pub open spec fn answer_s(input: Seq<char>) -> Seq<char> {
    lower_s(crate::text::trim_s(input))
}

/// Whether a typed answer to a yes/no question is acceptable: `y`, `yes`,
/// `n` or `no`, ignoring ASCII case and surrounding whitespace.
pub fn answer_valid(input: &str) -> (r: bool)
    ensures
        r == (answer_s(input@) == "y"@ || answer_s(input@) == "yes"@ || answer_s(input@) == "n"@ || answer_s(input@) == "no"@),
{
    let a = lower(&crate::text::trim(&chars_of(input)));
    eq_chars(&a, &chars_of("y")) || eq_chars(&a, &chars_of("yes")) || eq_chars(&a, &chars_of("n")) || eq_chars(&a, &chars_of("no"))
}

/// Whether a typed answer says yes: `y` or `yes`, ignoring ASCII case and
/// surrounding whitespace.
pub fn answer_yes(input: &str) -> (r: bool)
    ensures
        r == (answer_s(input@) == "y"@ || answer_s(input@) == "yes"@),
{
    let a = lower(&crate::text::trim(&chars_of(input)));
    eq_chars(&a, &chars_of("y")) || eq_chars(&a, &chars_of("yes"))
}

} // verus!
