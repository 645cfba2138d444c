//! The shape of `nv.yml` and the lookups the commands make in it.
//!
//! Maps of the file (services, secret presets) are held as lists of
//! `(name, value)` entries kept sorted by name with no name twice, which is
//! the order they are written in. Reading and writing the file is done by
//! the caller.

use vstd::prelude::*;

use crate::color::ColorConfig;
use crate::order::{lemma_lex_asymmetric, lemma_lex_trichotomy, lex_less, lex_lt};
use crate::parser::strings_view;
use crate::text::{chars_of, eq_chars, string_of};

verus! {

/// The file name looked for in the current directory and its parents.
pub const CONFIG_FILE: &'static str = "nv.yml";

/// Per-service file selection by kind; `None` means files of that kind are
/// discovered by pattern.
#[derive(Debug, Clone)]
pub struct ServiceFiles {
    pub dotenv: Option<Vec<String>>,
    pub dotenv_example: Option<Vec<String>>,
    pub configmap: Option<Vec<String>>,
    pub secret: Option<Vec<String>>,
}

/// Configuration of the leaks check.
#[derive(Debug, Clone)]
pub struct LeakConfig {
    /// Keys reported as false alarms; they are skipped on later runs.
    pub false_alarms: Vec<String>,
}

/// Configuration of the unused-keys check.
#[derive(Debug, Clone)]
pub struct UnusedConfig {
    /// Directories skipped when searching for key usage (added to the
    /// built-in ones).
    pub skip_dirs: Vec<String>,
    /// Files skipped when searching for key usage.
    pub skip_files: Vec<String>,
}

/// Configuration of the changes command.
#[derive(Debug, Clone)]
pub struct ChangesConfig {
    /// The branch compared against when none is given.
    pub master_branch: Option<String>,
    /// The environment folder the report is limited to when none is given.
    pub environment: Option<String>,
    /// Files left out of the report.
    pub skip_files: Vec<String>,
}

/// Files a command leaves out.
#[derive(Debug, Clone)]
pub struct SkipFilesConfig {
    pub skip_files: Vec<String>,
}

/// Configuration of the fake-secrets check.
#[derive(Debug, Clone)]
pub struct FakeSecretsConfig {
    /// Keys treated as secrets whatever their names.
    pub special_secret_keys: Vec<String>,
}

/// Command-specific configuration, under `commands:`.
#[derive(Debug, Clone)]
pub struct CommandsConfig {
    pub leaks: Option<LeakConfig>,
    pub unused: Option<UnusedConfig>,
    pub changes: Option<ChangesConfig>,
    pub find: Option<SkipFilesConfig>,
    pub compare: Option<SkipFilesConfig>,
    pub fake_secrets: Option<FakeSecretsConfig>,
}

/// An explicitly configured service.
#[derive(Debug, Clone)]
pub struct ServiceConfig {
    /// Path relative to `services_root`; the service name when absent.
    pub path: Option<String>,
    pub files: Option<ServiceFiles>,
    pub commands: Option<CommandsConfig>,
}

/// How a generated secret is encoded.
#[derive(Debug, Clone, Copy, PartialEq, Eq, Structural)]
pub enum SecretFormat {
    Hex,
    Base64,
    Alnum,
}

/// A per-key secret generation preset.
#[derive(Debug, Clone)]
pub struct SecretPreset {
    pub length: usize,
    pub format: SecretFormat,
    pub charset: Option<String>,
}

/// The `nv.yml` document.
#[derive(Debug, Clone)]
pub struct Config {
    /// Root directory containing the service folders.
    pub services_root: String,
    /// Folder names skipped when discovering services.
    pub ignore: Vec<String>,
    /// Explicit services by name; when empty, every subfolder is a service.
    pub services: Vec<(String, ServiceConfig)>,
    /// Secret generation presets by key.
    pub secrets: Vec<(String, SecretPreset)>,
    /// Global command-specific configuration.
    pub commands: Option<CommandsConfig>,
    /// Output colors.
    pub colors: ColorConfig,
}

impl Default for SecretFormat {
    fn default() -> (r: Self)
        ensures
            r == SecretFormat::Base64,
    {
        SecretFormat::Base64
    }
}

impl Default for Config {
    fn default() -> (r: Self)
        ensures
            r.services_root@ == Seq::<char>::empty(),
            r.ignore@.len() == 0,
            r.services@.len() == 0,
            r.secrets@.len() == 0,
            r.commands is None,
            r.colors == crate::color::default_colors(),
            r.wf(),
    {
        Config {
            services_root: String::new(),
            ignore: Vec::new(),
            services: Vec::new(),
            secrets: Vec::new(),
            commands: None,
            colors: ColorConfig::default(),
        }
    }
}

/// Secret length used when a preset names none.
pub const DEFAULT_SECRET_LENGTH: usize = 32;

/// The names of a list of named entries.
pub open spec fn entry_names<T>(v: Seq<(String, T)>) -> Seq<Seq<char>> {
    v.map_values(|e: (String, T)| e.0@)
}

/// Named entries sorted by name, no name twice.
pub open spec fn sorted_entries<T>(v: Seq<(String, T)>) -> bool {
    forall|i: int, j: int| 0 <= i < j < v.len() ==> lex_lt(#[trigger] v[i].0@, #[trigger] v[j].0@)
}

/// The index of the first entry named `name` from index `i` on, if any.
pub open spec fn entry_index_from<T>(v: Seq<(String, T)>, name: Seq<char>, i: int) -> Option<int>
    decreases v.len() - i,
{
    if i < 0 || i >= v.len() {
        None
    } else if v[i].0@ == name {
        Some(i)
    } else {
        entry_index_from(v, name, i + 1)
    }
}

/// The index of the entry named `name`, if any.
pub open spec fn entry_index<T>(v: Seq<(String, T)>, name: Seq<char>) -> Option<int> {
    entry_index_from(v, name, 0)
}

/// The false alarms listed in a `commands:` section.
pub open spec fn alarms_of(c: Option<CommandsConfig>) -> Seq<Seq<char>> {
    match c {
        Some(cmd) => match cmd.leaks {
            Some(l) => strings_view(l.false_alarms@),
            None => seq![],
        },
        None => seq![],
    }
}

/// The false alarms of service `s`.
pub open spec fn service_alarms(cfg: Config, s: Seq<char>) -> Seq<Seq<char>> {
    match entry_index(cfg.services@, s) {
        Some(i) => alarms_of(cfg.services@[i].1.commands),
        None => seq![],
    }
}

/// Whether `key` of service `s` is a false alarm, globally or for the
/// service.
pub open spec fn is_false_alarm_s(cfg: Config, s: Seq<char>, key: Seq<char>) -> bool {
    alarms_of(cfg.commands).contains(key) || service_alarms(cfg, s).contains(key)
}

/// Two `commands:` sections that agree except that the second's false
/// alarms are `alarms`.
pub open spec fn commands_with_alarms(old: Option<CommandsConfig>, new: Option<CommandsConfig>, alarms: Seq<Seq<char>>) -> bool {
    &&& new is Some
    &&& new->0.leaks is Some
    &&& strings_view(new->0.leaks->0.false_alarms@) == alarms
    &&& other_sections(new) == other_sections(old)
}

/// The sections of a `commands:` section other than `leaks`.
pub open spec fn other_sections(c: Option<CommandsConfig>) -> (
    Option<UnusedConfig>,
    Option<ChangesConfig>,
    Option<SkipFilesConfig>,
    Option<SkipFilesConfig>,
    Option<FakeSecretsConfig>,
) {
    match c {
        Some(c) => (c.unused, c.changes, c.find, c.compare, c.fake_secrets),
        None => (None, None, None, None, None),
    }
}

/// What adding false alarm `k` for service `s` does: the service's entry
/// (created in name order when missing) lists `k` once, added at the end
/// when it was not there; everything else stays; `r` tells whether it was
/// added.
pub open spec fn added_alarm(old: Config, new: Config, s: Seq<char>, k: Seq<char>, r: bool) -> bool {
    &&& r == !service_alarms(old, s).contains(k)
    &&& service_alarms(new, s) == if r {
        service_alarms(old, s).push(k)
    } else {
        service_alarms(old, s)
    }
    &&& sorted_entries(new.services@)
    &&& entry_names(new.services@).to_set() == entry_names(old.services@).to_set().insert(s)
    &&& forall|s2: Seq<char>| s2 != s ==> #[trigger] service_alarms(new, s2) == service_alarms(old, s2)
    &&& forall|s2: Seq<char>| s2 != s ==> #[trigger] service_entry(new, s2) == service_entry(old, s2)
    &&& service_entry(new, s) matches Some(e) && e.path == entry_path(old, s) && e.files == entry_files(old, s)
        && other_sections(e.commands) == other_sections(entry_commands(old, s))
    &&& !r ==> new.services@ == old.services@
    &&& new.commands == old.commands
    &&& new.services_root == old.services_root
    &&& new.ignore == old.ignore
    &&& new.secrets == old.secrets
    &&& new.colors == old.colors
}

/// The `path` of service `s`'s entry (`None` without an entry).
pub open spec fn entry_path(cfg: Config, s: Seq<char>) -> Option<String> {
    match service_entry(cfg, s) {
        Some(e) => e.path,
        None => None,
    }
}

/// The `files` of service `s`'s entry (`None` without an entry).
pub open spec fn entry_files(cfg: Config, s: Seq<char>) -> Option<ServiceFiles> {
    match service_entry(cfg, s) {
        Some(e) => e.files,
        None => None,
    }
}

/// The `commands` of service `s`'s entry (`None` without an entry).
pub open spec fn entry_commands(cfg: Config, s: Seq<char>) -> Option<CommandsConfig> {
    match service_entry(cfg, s) {
        Some(e) => e.commands,
        None => None,
    }
}

/// Whether a list of strings holds `key`.
fn list_has(v: &Vec<String>, key: &str) -> (r: bool)
    ensures
        r == strings_view(v@).contains(key@),
{
    let k = chars_of(key);
    let ghost sv = strings_view(v@);
    let mut i: usize = 0;
    while i < v.len()
        invariant
            i <= v.len(),
            sv == strings_view(v@),
            k@ == key@,
            forall|j: int| 0 <= j < i ==> sv[j] != key@,
        decreases v.len() - i,
    {
        if eq_chars(&chars_of(v[i].as_str()), &k) {
            assert(sv[i as int] == key@);
            return true;
        }
        i = i + 1;
    }
    false
}

fn alarms_has(c: &Option<CommandsConfig>, key: &str) -> (r: bool)
    ensures
        r == alarms_of(*c).contains(key@),
{
    match c {
        Some(cmd) => match &cmd.leaks {
            Some(l) => list_has(&l.false_alarms, key),
            None => false,
        },
        None => false,
    }
}

proof fn lemma_entry_index_unique<T>(v: Seq<(String, T)>, k: int, name: Seq<char>)
    requires
        sorted_entries(v),
        0 <= k < v.len(),
        v[k].0@ == name,
    ensures
        entry_index(v, name) == Some(k),
{
    lemma_entry_index_at(v, k, name, 0);
}

proof fn lemma_entry_index_at<T>(v: Seq<(String, T)>, k: int, name: Seq<char>, i: int)
    requires
        sorted_entries(v),
        0 <= i <= k < v.len(),
        v[k].0@ == name,
    ensures
        entry_index_from(v, name, i) == Some(k),
    decreases k - i,
{
    if i < k {
        assert(lex_lt(v[i].0@, v[k].0@));
        lemma_lex_trichotomy(name, name);
        lemma_entry_index_at(v, k, name, i + 1);
    }
}

proof fn lemma_entry_index_found<T>(v: Seq<(String, T)>, name: Seq<char>, i0: int)
    requires
        0 <= i0 <= v.len(),
    ensures
        entry_index_from(v, name, i0) matches Some(i) ==> i0 <= i < v.len() && v[i].0@ == name,
    decreases v.len() - i0,
{
    if i0 < v.len() {
        lemma_entry_index_found(v, name, i0 + 1);
    }
}

proof fn lemma_entry_index_none<T>(v: Seq<(String, T)>, name: Seq<char>, i: int)
    requires
        0 <= i <= v.len(),
        forall|j: int| i <= j < v.len() ==> v[j].0@ != name,
    ensures
        entry_index_from(v, name, i) is None,
    decreases v.len() - i,
{
    if i < v.len() {
        lemma_entry_index_none(v, name, i + 1);
    }
}

/// The index of the entry named `name`, or where it would go.
fn entry_position<T>(v: &Vec<(String, T)>, name: &str) -> (r: (usize, bool))
    requires
        sorted_entries(v@),
    ensures
        r.0 <= v.len(),
        r.1 ==> r.0 < v.len() && v@[r.0 as int].0@ == name@ && entry_index(v@, name@) == Some(r.0 as int),
        !r.1 ==> entry_index(v@, name@) is None,
        !r.1 ==> forall|j: int| 0 <= j < r.0 ==> lex_lt(#[trigger] v@[j].0@, name@),
        !r.1 ==> forall|j: int| r.0 <= j < v.len() ==> lex_lt(name@, #[trigger] v@[j].0@),
{
    let n = chars_of(name);
    let mut p: usize = 0;
    while p < v.len() && lex_less(&chars_of(v[p].0.as_str()), &n)
        invariant
            p <= v.len(),
            n@ == name@,
            sorted_entries(v@),
            forall|j: int| 0 <= j < p ==> lex_lt(#[trigger] v@[j].0@, name@),
        decreases v.len() - p,
    {
        p = p + 1;
    }
    if p < v.len() && eq_chars(&chars_of(v[p].0.as_str()), &n) {
        proof {
            lemma_entry_index_unique(v@, p as int, name@);
        }
        return (p, true);
    }
    proof {
        if p < v.len() {
            lemma_lex_trichotomy(v@[p as int].0@, name@);
        }
        assert forall|j: int| p <= j < v.len() implies lex_lt(name@, #[trigger] v@[j].0@) by {
            if j > p {
                assert(lex_lt(v@[p as int].0@, v@[j].0@));
                crate::order::lemma_lex_transitive(name@, v@[p as int].0@, v@[j].0@, 0);
            }
        }
        assert forall|i: int| 0 <= i < v@.len() implies v@[i].0@ != name@ by {
            lemma_lex_trichotomy(name@, name@);
            if i < p {
                assert(lex_lt(v@[i].0@, name@));
            } else {
                assert(lex_lt(name@, v@[i].0@));
            }
        }
        lemma_entry_index_none(v@, name@, 0);
    }
    (p, false)
}

/// A `commands:` section with `key` among its false alarms.
fn with_alarm(c: Option<CommandsConfig>, key: &str) -> (r: (Option<CommandsConfig>, bool))
    ensures
        r.1 == !alarms_of(c).contains(key@),
        commands_with_alarms(c, r.0, if r.1 { alarms_of(c).push(key@) } else { alarms_of(c) }),
        !r.1 ==> r.0 == c,
{
    let ghost a0 = alarms_of(c);
    let ghost o0 = other_sections(c);
    let (leaks, unused, changes, find, compare, fake_secrets) = match c {
        Some(cmd) => (cmd.leaks, cmd.unused, cmd.changes, cmd.find, cmd.compare, cmd.fake_secrets),
        None => (None, None, None, None, None, None),
    };
    let mut alarms = match leaks {
        Some(l) => l.false_alarms,
        None => Vec::new(),
    };
    assert(strings_view(alarms@) =~= a0);
    assert((unused, changes, find, compare, fake_secrets) == o0);
    let added = !list_has(&alarms, key);
    if added {
        let ghost before = alarms@;
        alarms.push(key.to_owned());
        assert(strings_view(alarms@) =~= strings_view(before).push(key@));
    }
    (
        Some(
            CommandsConfig {
                leaks: Some(LeakConfig { false_alarms: alarms }),
                unused,
                changes,
                find,
                compare,
                fake_secrets,
            },
        ),
        added,
    )
}

/// The `changes:` section of a `commands:` section.
pub open spec fn changes_of(c: Option<CommandsConfig>) -> Option<ChangesConfig> {
    match c {
        Some(c) => c.changes,
        None => None,
    }
}

/// The changes command's default branch set in a `commands:` section.
pub open spec fn master_branch_of(c: Option<CommandsConfig>) -> Option<Seq<char>> {
    match changes_of(c) {
        Some(ch) => match ch.master_branch {
            Some(b) => Some(b@),
            None => None,
        },
        None => None,
    }
}

/// The changes command's default environment set in a `commands:` section.
pub open spec fn environment_of(c: Option<CommandsConfig>) -> Option<Seq<char>> {
    match changes_of(c) {
        Some(ch) => match ch.environment {
            Some(e) => Some(e@),
            None => None,
        },
        None => None,
    }
}

/// The files the changes command skips, as a `commands:` section lists them.
pub open spec fn changes_skip_of(c: Option<CommandsConfig>) -> Seq<Seq<char>> {
    match changes_of(c) {
        Some(ch) => strings_view(ch.skip_files@),
        None => seq![],
    }
}

/// The files the find command skips, as a `commands:` section lists them.
pub open spec fn find_skip_of(c: Option<CommandsConfig>) -> Seq<Seq<char>> {
    match c {
        Some(c) => match c.find {
            Some(f) => strings_view(f.skip_files@),
            None => seq![],
        },
        None => seq![],
    }
}

/// The files the compare command skips, as a `commands:` section lists
/// them.
pub open spec fn compare_skip_of(c: Option<CommandsConfig>) -> Seq<Seq<char>> {
    match c {
        Some(c) => match c.compare {
            Some(f) => strings_view(f.skip_files@),
            None => seq![],
        },
        None => seq![],
    }
}

/// The special secret keys a `commands:` section lists.
pub open spec fn special_keys_of(c: Option<CommandsConfig>) -> Seq<Seq<char>> {
    match c {
        Some(c) => match c.fake_secrets {
            Some(f) => strings_view(f.special_secret_keys@),
            None => seq![],
        },
        None => seq![],
    }
}

/// A setting for service `s`: the service's own where it has one, else the
/// global one.
pub open spec fn service_or_global(own: Option<Seq<char>>, global: Option<Seq<char>>) -> Option<Seq<char>> {
    match own {
        Some(v) => Some(v),
        None => global,
    }
}

/// Append copies of the strings of `src` to `dst`.
fn append_strings(dst: &mut Vec<String>, src: &Vec<String>)
    ensures
        strings_view(final(dst)@) == strings_view(old(dst)@) + strings_view(src@),
{
    let ghost start = strings_view(dst@);
    let mut i: usize = 0;
    while i < src.len()
        invariant
            i <= src.len(),
            strings_view(dst@) == start + strings_view(src@.take(i as int)),
        decreases src.len() - i,
    {
        let s = src[i].clone();
        let ghost before = dst@;
        dst.push(s);
        assert(strings_view(dst@) =~= strings_view(before).push(src@[i as int]@));
        assert(src@.take(i + 1) =~= src@.take(i as int).push(src@[i as int]));
        assert(strings_view(src@.take(i + 1)) =~= strings_view(src@.take(i as int)).push(src@[i as int]@));
        i = i + 1;
    }
    assert(src@.take(src@.len() as int) =~= src@);
}

/// The text of an optional string.
fn opt_str(o: &Option<String>) -> (r: Option<&str>)
    ensures
        match o {
            Some(s) => r matches Some(t) && t@ == s@,
            None => r is None,
        },
{
    match o {
        Some(s) => Some(s.as_str()),
        None => None,
    }
}

impl Config {
    /// Whether a named-entry list is in name order with no name twice.
    pub open spec fn wf(&self) -> bool {
        sorted_entries(self.services@) && sorted_entries(self.secrets@)
    }

    /// The secret preset for `key`, if any.
    pub fn secret_preset(&self, key: &str) -> (r: Option<&SecretPreset>)
        requires
            self.wf(),
        ensures
            match r {
                Some(p) => entry_index(self.secrets@, key@) matches Some(i) && *p == self.secrets@[i].1,
                None => entry_index(self.secrets@, key@) is None,
            },
    {
        let (p, found) = entry_position(&self.secrets, key);
        if found {
            Some(&self.secrets[p].1)
        } else {
            None
        }
    }

    /// The `commands:` section of service `service`'s entry, if any.
    fn service_commands(&self, service: &str) -> (r: Option<&CommandsConfig>)
        requires
            self.wf(),
        ensures
            match r {
                Some(c) => entry_commands(*self, service@) == Some(*c),
                None => entry_commands(*self, service@) is None,
            },
    {
        let (p, found) = entry_position(&self.services, service);
        if found {
            match &self.services[p].1.commands {
                Some(c) => Some(c),
                None => None,
            }
        } else {
            None
        }
    }

    /// The branch the changes command compares against for `service` when
    /// none is given: the service's `commands.changes.master_branch`, else
    /// the global one.
    pub fn changes_master_branch_for(&self, service: &str) -> (r: Option<&str>)
        requires
            self.wf(),
        ensures
            match r {
                Some(b) => service_or_global(master_branch_of(entry_commands(*self, service@)), master_branch_of(self.commands)) == Some(b@),
                None => service_or_global(master_branch_of(entry_commands(*self, service@)), master_branch_of(self.commands)) is None,
            },
    {
        let own = match self.service_commands(service) {
            Some(c) => match &c.changes {
                Some(ch) => opt_str(&ch.master_branch),
                None => None,
            },
            None => None,
        };
        if own.is_some() {
            return own;
        }
        match &self.commands {
            Some(c) => match &c.changes {
                Some(ch) => opt_str(&ch.master_branch),
                None => None,
            },
            None => None,
        }
    }

    /// The environment the changes command keeps to for `service` when none
    /// is given: the service's `commands.changes.environment`, else the
    /// global one.
    pub fn changes_environment_for(&self, service: &str) -> (r: Option<&str>)
        requires
            self.wf(),
        ensures
            match r {
                Some(e) => service_or_global(environment_of(entry_commands(*self, service@)), environment_of(self.commands)) == Some(e@),
                None => service_or_global(environment_of(entry_commands(*self, service@)), environment_of(self.commands)) is None,
            },
    {
        let own = match self.service_commands(service) {
            Some(c) => match &c.changes {
                Some(ch) => opt_str(&ch.environment),
                None => None,
            },
            None => None,
        };
        if own.is_some() {
            return own;
        }
        match &self.commands {
            Some(c) => match &c.changes {
                Some(ch) => opt_str(&ch.environment),
                None => None,
            },
            None => None,
        }
    }

    /// The files the changes command skips for `service`: the global
    /// `commands.changes.skip_files`, then the service's own.
    pub fn changes_skip_files_for(&self, service: &str) -> (r: Vec<String>)
        requires
            self.wf(),
        ensures
            strings_view(r@) == changes_skip_of(self.commands) + changes_skip_of(entry_commands(*self, service@)),
    {
        let mut out: Vec<String> = Vec::new();
        if let Some(c) = &self.commands {
            if let Some(ch) = &c.changes {
                append_strings(&mut out, &ch.skip_files);
            }
        }
        assert(strings_view(out@) =~= changes_skip_of(self.commands));
        let ghost g = strings_view(out@);
        if let Some(c) = self.service_commands(service) {
            if let Some(ch) = &c.changes {
                append_strings(&mut out, &ch.skip_files);
            }
        }
        assert(strings_view(out@) =~= g + changes_skip_of(entry_commands(*self, service@)));
        out
    }

    /// The files the find command skips for `service`: the global
    /// `commands.find.skip_files`, then the service's own.
    pub fn find_skip_files_for(&self, service: &str) -> (r: Vec<String>)
        requires
            self.wf(),
        ensures
            strings_view(r@) == find_skip_of(self.commands) + find_skip_of(entry_commands(*self, service@)),
    {
        let mut out: Vec<String> = Vec::new();
        if let Some(c) = &self.commands {
            if let Some(f) = &c.find {
                append_strings(&mut out, &f.skip_files);
            }
        }
        assert(strings_view(out@) =~= find_skip_of(self.commands));
        let ghost g = strings_view(out@);
        if let Some(c) = self.service_commands(service) {
            if let Some(f) = &c.find {
                append_strings(&mut out, &f.skip_files);
            }
        }
        assert(strings_view(out@) =~= g + find_skip_of(entry_commands(*self, service@)));
        out
    }

    /// The files the compare command skips for `service`: the global
    /// `commands.compare.skip_files`, then the service's own.
    pub fn compare_skip_files_for(&self, service: &str) -> (r: Vec<String>)
        requires
            self.wf(),
        ensures
            strings_view(r@) == compare_skip_of(self.commands) + compare_skip_of(entry_commands(*self, service@)),
    {
        let mut out: Vec<String> = Vec::new();
        if let Some(c) = &self.commands {
            if let Some(f) = &c.compare {
                append_strings(&mut out, &f.skip_files);
            }
        }
        assert(strings_view(out@) =~= compare_skip_of(self.commands));
        let ghost g = strings_view(out@);
        if let Some(c) = self.service_commands(service) {
            if let Some(f) = &c.compare {
                append_strings(&mut out, &f.skip_files);
            }
        }
        assert(strings_view(out@) =~= g + compare_skip_of(entry_commands(*self, service@)));
        out
    }

    /// The keys the fake-secrets check treats as secrets for `service`,
    /// whatever their names: the global
    /// `commands.fake_secrets.special_secret_keys`, then the service's own.
    pub fn special_secret_keys_for(&self, service: &str) -> (r: Vec<String>)
        requires
            self.wf(),
        ensures
            strings_view(r@) == special_keys_of(self.commands) + special_keys_of(entry_commands(*self, service@)),
    {
        let mut out: Vec<String> = Vec::new();
        if let Some(c) = &self.commands {
            if let Some(f) = &c.fake_secrets {
                append_strings(&mut out, &f.special_secret_keys);
            }
        }
        assert(strings_view(out@) =~= special_keys_of(self.commands));
        let ghost g = strings_view(out@);
        if let Some(c) = self.service_commands(service) {
            if let Some(f) = &c.fake_secrets {
                append_strings(&mut out, &f.special_secret_keys);
            }
        }
        assert(strings_view(out@) =~= g + special_keys_of(entry_commands(*self, service@)));
        out
    }

    /// Whether `key` of `service` is a false alarm: listed under the global
    /// `commands.leaks.false_alarms` or under the service's own.
    pub fn is_false_alarm(&self, service: &str, key: &str) -> (r: bool)
        requires
            self.wf(),
        ensures
            r == is_false_alarm_s(*self, service@, key@),
    {
        if alarms_has(&self.commands, key) {
            return true;
        }
        let (p, found) = entry_position(&self.services, service);
        if found {
            alarms_has(&self.services[p].1.commands, key)
        } else {
            false
        }
    }

    /// Mark `key` of `service` as a false alarm, creating the service entry
    /// and its sections as needed. Returns whether the key was newly added.
    pub fn add_false_alarm(&mut self, service: &str, key: &str) -> (r: bool)
        requires
            old(self).wf(),
        ensures
            final(self).wf(),
            added_alarm(*old(self), *final(self), service@, key@, r),
    {
        let ghost old_cfg = *self;
        let (p, found) = entry_position(&self.services, service);
        let ghost sv = self.services@;
        if found {
            let (name, svc) = self.services.remove(p);
            let (commands, added) = with_alarm(svc.commands, key);
            let entry = (name, ServiceConfig { path: svc.path, files: svc.files, commands });
            self.services.insert(p, entry);
            proof {
                let nv = self.services@;
                assert(nv =~= sv.update(p as int, entry));
                assert(sorted_entries(nv)) by {
                    assert forall|i: int, j: int| 0 <= i < j < nv.len() implies lex_lt(#[trigger] nv[i].0@, #[trigger] nv[j].0@) by {
                        assert(lex_lt(sv[i].0@, sv[j].0@));
                    }
                }
                lemma_entry_index_unique(nv, p as int, service@);
                assert(entry_names(nv) =~= entry_names(sv));
                assert(entry_names(sv).to_set().contains(service@)) by {
                    assert(entry_names(sv)[p as int] == service@);
                }
                assert(entry_names(nv).to_set().insert(service@) =~= entry_names(nv).to_set());
                assert forall|s2: Seq<char>| s2 != service@ implies #[trigger] service_alarms(*self, s2) == service_alarms(old_cfg, s2)
                    && service_entry(*self, s2) == service_entry(old_cfg, s2) by {
                    lemma_entry_index_found(sv, s2, 0);
                    match entry_index(sv, s2) {
                        Some(i) => {
                            assert(sv[i].0@ == s2);
                            assert(i != p);
                            assert(nv[i] == sv[i]);
                            lemma_entry_index_unique(sv, i, s2);
                            lemma_entry_index_unique(nv, i, s2);
                        },
                        None => {
                            assert forall|i: int| 0 <= i < nv.len() implies nv[i].0@ != s2 by {
                                if nv[i].0@ == s2 {
                                    assert(i != p);
                                    assert(sv[i].0@ == s2);
                                    lemma_entry_index_unique(sv, i, s2);
                                }
                            }
                            lemma_entry_index_none(nv, s2, 0);
                        },
                    }
                }
            }
            proof {
                assert forall|s2: Seq<char>| s2 != service@ implies #[trigger] service_entry(*self, s2) == service_entry(old_cfg, s2) by {
                    assert(service_alarms(*self, s2) == service_alarms(old_cfg, s2));
                }
                let nv = self.services@;
                lemma_entry_index_unique(sv, p as int, service@);
                lemma_entry_index_unique(nv, p as int, service@);
                assert(service_entry(old_cfg, service@) == Some(sv[p as int].1));
                assert(service_entry(*self, service@) == Some(entry.1));
                if !added {
                    assert(entry == sv[p as int]);
                    assert(nv =~= sv);
                }
            }
            added
        } else {
            let (commands, added) = with_alarm(None, key);
            let entry = (service.to_owned(), ServiceConfig { path: None, files: None, commands });
            self.services.insert(p, entry);
            proof {
                let nv = self.services@;
                assert(nv =~= sv.insert(p as int, entry));
                assert(sorted_entries(nv)) by {
                    assert forall|i: int, j: int| 0 <= i < j < nv.len() implies lex_lt(#[trigger] nv[i].0@, #[trigger] nv[j].0@) by {
                        if j < p {
                            assert(lex_lt(sv[i].0@, sv[j].0@));
                        } else if j == p {
                        } else if i == p {
                        } else if i < p {
                            assert(nv[j] == sv[j - 1]);
                            assert(lex_lt(sv[i].0@, service@));
                            crate::order::lemma_lex_transitive(sv[i].0@, service@, sv[j - 1].0@, 0);
                        } else {
                            assert(lex_lt(sv[i - 1].0@, sv[j - 1].0@));
                        }
                    }
                }
                lemma_entry_index_unique(nv, p as int, service@);
                assert(entry_names(nv) =~= entry_names(sv).insert(p as int, service@));
                assert(entry_names(nv).to_set() =~= entry_names(sv).to_set().insert(service@)) by {
                    assert forall|x: Seq<char>| entry_names(nv).to_set().contains(x) <==> entry_names(sv).to_set().insert(service@).contains(x) by {
                        if entry_names(nv).to_set().contains(x) {
                            let q = choose|q: int| 0 <= q < entry_names(nv).len() && entry_names(nv)[q] == x;
                            if q < p {
                                assert(entry_names(sv)[q] == x);
                            } else if q > p {
                                assert(entry_names(sv)[q - 1] == x);
                            }
                        }
                        if entry_names(sv).to_set().contains(x) {
                            let q = choose|q: int| 0 <= q < entry_names(sv).len() && entry_names(sv)[q] == x;
                            if q < p {
                                assert(entry_names(nv)[q] == x);
                            } else {
                                assert(entry_names(nv)[q + 1] == x);
                            }
                        }
                        if x == service@ {
                            assert(entry_names(nv)[p as int] == x);
                        }
                    }
                }
                assert(alarms_of(None) =~= seq![]);
                assert forall|s2: Seq<char>| s2 != service@ implies #[trigger] service_alarms(*self, s2) == service_alarms(old_cfg, s2)
                    && service_entry(*self, s2) == service_entry(old_cfg, s2) by {
                    lemma_entry_index_found(sv, s2, 0);
                    match entry_index(sv, s2) {
                        Some(i) => {
                            assert(sv[i].0@ == s2);
                            let k = if i < p { i } else { i + 1 };
                            assert(nv[k] == sv[i]);
                            lemma_entry_index_unique(sv, i, s2);
                            lemma_entry_index_unique(nv, k, s2);
                        },
                        None => {
                            assert forall|i: int| 0 <= i < nv.len() implies nv[i].0@ != s2 by {
                                if nv[i].0@ == s2 {
                                    assert(i != p);
                                    if i < p {
                                        assert(sv[i].0@ == s2);
                                        lemma_entry_index_unique(sv, i, s2);
                                    } else {
                                        assert(sv[i - 1].0@ == s2);
                                        lemma_entry_index_unique(sv, i - 1, s2);
                                    }
                                }
                            }
                            lemma_entry_index_none(nv, s2, 0);
                        },
                    }
                }
                assert forall|s2: Seq<char>| s2 != service@ implies #[trigger] service_entry(*self, s2) == service_entry(old_cfg, s2) by {
                    assert(service_alarms(*self, s2) == service_alarms(old_cfg, s2));
                }
                assert(service_entry(old_cfg, service@) is None);
                assert(service_entry(*self, service@) == Some(entry.1));
                assert(alarms_of(None).len() == 0);
            }
            added
        }
    }
}

/// Adding a false alarm makes it one.
pub proof fn law_added_alarm_is_flagged(old: Config, new: Config, s: Seq<char>, k: Seq<char>, r: bool)
    requires
        added_alarm(old, new, s, k, r),
    ensures
        is_false_alarm_s(new, s, k),
{
    if !r {
        assert(service_alarms(old, s).contains(k));
    } else {
        assert(service_alarms(new, s).last() == k);
    }
}

/// Adding the same false alarm twice reports it as new only the first time;
/// the second addition leaves the configuration as the first one made it.
pub proof fn law_add_alarm_twice(c0: Config, c1: Config, c2: Config, s: Seq<char>, k: Seq<char>, r1: bool, r2: bool)
    requires
        added_alarm(c0, c1, s, k, r1),
        added_alarm(c1, c2, s, k, r2),
    ensures
        !r2,
        service_alarms(c2, s) == service_alarms(c1, s),
        c2.services@ == c1.services@,
        c2.commands == c1.commands && c2.services_root == c1.services_root && c2.ignore == c1.ignore
            && c2.secrets == c1.secrets && c2.colors == c1.colors,
{
    law_added_alarm_is_flagged(c0, c1, s, k, r1);
    if r1 {
        assert(service_alarms(c1, s).last() == k);
        assert(service_alarms(c1, s).contains(k));
    }
}

/// Adding a false alarm changes no other key's or service's status.
pub proof fn law_add_alarm_keeps_others(old: Config, new: Config, s: Seq<char>, k: Seq<char>, r: bool, s2: Seq<char>, k2: Seq<char>)
    requires
        added_alarm(old, new, s, k, r),
        s2 != s || k2 != k,
    ensures
        is_false_alarm_s(new, s2, k2) == is_false_alarm_s(old, s2, k2),
{
    if s2 == s && r {
        let a = service_alarms(old, s);
        assert(a.push(k).contains(k2) == a.contains(k2)) by {
            if a.push(k).contains(k2) {
                let i = choose|i: int| 0 <= i < a.push(k).len() && a.push(k)[i] == k2;
                assert(i < a.len());
                assert(a[i] == k2);
            }
            if a.contains(k2) {
                let i = choose|i: int| 0 <= i < a.len() && a[i] == k2;
                assert(a.push(k)[i] == k2);
            }
        }
    }
}

/// Mark each (service, key) pair as a false alarm, in order, and return how
/// many were newly added. Every pair is a false alarm afterwards, and
/// nothing that was one stops being one.
pub fn mark_false_alarms(cfg: &mut Config, pairs: &Vec<(String, String)>) -> (added: usize)
    requires
        old(cfg).wf(),
    ensures
        final(cfg).wf(),
        added <= pairs@.len(),
        forall|i: int| 0 <= i < pairs@.len() ==> is_false_alarm_s(*final(cfg), (#[trigger] pairs@[i]).0@, pairs@[i].1@),
        forall|s: Seq<char>, k: Seq<char>| is_false_alarm_s(*old(cfg), s, k) ==> #[trigger] is_false_alarm_s(*final(cfg), s, k),
{
    let ghost start = *cfg;
    let mut added: usize = 0;
    let mut i: usize = 0;
    while i < pairs.len()
        invariant
            i <= pairs.len(),
            added <= i,
            cfg.wf(),
            forall|j: int| 0 <= j < i ==> is_false_alarm_s(*cfg, (#[trigger] pairs@[j]).0@, pairs@[j].1@),
            forall|s: Seq<char>, k: Seq<char>| is_false_alarm_s(start, s, k) ==> #[trigger] is_false_alarm_s(*cfg, s, k),
        decreases pairs.len() - i,
    {
        let ghost before = *cfg;
        let (service, key) = &pairs[i];
        let r = cfg.add_false_alarm(service.as_str(), key.as_str());
        proof {
            law_added_alarm_is_flagged(before, *cfg, service@, key@, r);
            assert forall|s: Seq<char>, k: Seq<char>| is_false_alarm_s(before, s, k) implies #[trigger] is_false_alarm_s(*cfg, s, k) by {
                if s != service@ || k != key@ {
                    law_add_alarm_keeps_others(before, *cfg, service@, key@, r, s, k);
                }
            }
            assert forall|j: int| 0 <= j <= i implies is_false_alarm_s(*cfg, (#[trigger] pairs@[j]).0@, pairs@[j].1@) by {
                if j < i {
                    assert(is_false_alarm_s(before, pairs@[j].0@, pairs@[j].1@));
                }
            }
        }
        if r {
            added = added + 1;
        }
        i = i + 1;
    }
    added
}

/// The entry configured for service `s`, if any.
pub open spec fn service_entry(cfg: Config, s: Seq<char>) -> Option<ServiceConfig> {
    match entry_index(cfg.services@, s) {
        Some(i) => Some(cfg.services@[i].1),
        None => None,
    }
}

impl Config {
    /// Configure service `name` as `sc`, replacing its entry or adding one
    /// in name order.
    pub fn put_service(&mut self, name: &str, sc: ServiceConfig)
        requires
            old(self).wf(),
        ensures
            final(self).wf(),
            service_entry(*final(self), name@) == Some(sc),
            forall|s2: Seq<char>| s2 != name@ ==> #[trigger] service_entry(*final(self), s2) == service_entry(*old(self), s2),
            entry_names(final(self).services@).to_set() == entry_names(old(self).services@).to_set().insert(name@),
            final(self).secrets == old(self).secrets,
            final(self).commands == old(self).commands,
            final(self).services_root == old(self).services_root,
            final(self).ignore == old(self).ignore,
            final(self).colors == old(self).colors,
    {
        let (p, found) = entry_position(&self.services, name);
        let ghost sv = self.services@;
        if found {
            let (n, _) = self.services.remove(p);
            let entry = (n, sc);
            self.services.insert(p, entry);
            proof {
                let nv = self.services@;
                assert(nv =~= sv.update(p as int, entry));
                assert(sorted_entries(nv)) by {
                    assert forall|i: int, j: int| 0 <= i < j < nv.len() implies lex_lt(#[trigger] nv[i].0@, #[trigger] nv[j].0@) by {
                        assert(lex_lt(sv[i].0@, sv[j].0@));
                    }
                }
                lemma_entry_index_unique(nv, p as int, name@);
                assert(entry_names(nv) =~= entry_names(sv));
                assert(entry_names(sv).to_set().contains(name@)) by {
                    assert(entry_names(sv)[p as int] == name@);
                }
                assert(entry_names(nv).to_set().insert(name@) =~= entry_names(nv).to_set());
                assert forall|s2: Seq<char>| s2 != name@ implies #[trigger] service_entry(*self, s2) == service_entry(*old(self), s2) by {
                    lemma_entry_index_found(sv, s2, 0);
                    match entry_index(sv, s2) {
                        Some(i) => {
                            assert(sv[i].0@ == s2);
                            assert(i != p);
                            assert(nv[i] == sv[i]);
                            lemma_entry_index_unique(sv, i, s2);
                            lemma_entry_index_unique(nv, i, s2);
                        },
                        None => {
                            assert forall|i: int| 0 <= i < nv.len() implies nv[i].0@ != s2 by {
                                if nv[i].0@ == s2 {
                                    assert(i != p);
                                    assert(sv[i].0@ == s2);
                                    lemma_entry_index_unique(sv, i, s2);
                                }
                            }
                            lemma_entry_index_none(nv, s2, 0);
                        },
                    }
                }
            }
        } else {
            let entry = (name.to_owned(), sc);
            self.services.insert(p, entry);
            proof {
                let nv = self.services@;
                assert(nv =~= sv.insert(p as int, entry));
                assert(sorted_entries(nv)) by {
                    assert forall|i: int, j: int| 0 <= i < j < nv.len() implies lex_lt(#[trigger] nv[i].0@, #[trigger] nv[j].0@) by {
                        if j < p {
                            assert(lex_lt(sv[i].0@, sv[j].0@));
                        } else if j == p {
                        } else if i == p {
                        } else if i < p {
                            assert(nv[j] == sv[j - 1]);
                            assert(lex_lt(sv[i].0@, name@));
                            crate::order::lemma_lex_transitive(sv[i].0@, name@, sv[j - 1].0@, 0);
                        } else {
                            assert(lex_lt(sv[i - 1].0@, sv[j - 1].0@));
                        }
                    }
                }
                lemma_entry_index_unique(nv, p as int, name@);
                assert(entry_names(nv) =~= entry_names(sv).insert(p as int, name@));
                assert(entry_names(nv).to_set() =~= entry_names(sv).to_set().insert(name@)) by {
                    assert forall|x: Seq<char>| entry_names(nv).to_set().contains(x) <==> entry_names(sv).to_set().insert(name@).contains(x) by {
                        if entry_names(nv).to_set().contains(x) {
                            let q = choose|q: int| 0 <= q < entry_names(nv).len() && entry_names(nv)[q] == x;
                            if q < p {
                                assert(entry_names(sv)[q] == x);
                            } else if q > p {
                                assert(entry_names(sv)[q - 1] == x);
                            }
                        }
                        if entry_names(sv).to_set().contains(x) {
                            let q = choose|q: int| 0 <= q < entry_names(sv).len() && entry_names(sv)[q] == x;
                            if q < p {
                                assert(entry_names(nv)[q] == x);
                            } else {
                                assert(entry_names(nv)[q + 1] == x);
                            }
                        }
                        if x == name@ {
                            assert(entry_names(nv)[p as int] == x);
                        }
                    }
                }
                assert forall|s2: Seq<char>| s2 != name@ implies #[trigger] service_entry(*self, s2) == service_entry(*old(self), s2) by {
                    lemma_entry_index_found(sv, s2, 0);
                    match entry_index(sv, s2) {
                        Some(i) => {
                            assert(sv[i].0@ == s2);
                            let k = if i < p { i } else { i + 1 };
                            assert(nv[k] == sv[i]);
                            lemma_entry_index_unique(sv, i, s2);
                            lemma_entry_index_unique(nv, k, s2);
                        },
                        None => {
                            assert forall|i: int| 0 <= i < nv.len() implies nv[i].0@ != s2 by {
                                if nv[i].0@ == s2 {
                                    assert(i != p);
                                    if i < p {
                                        assert(sv[i].0@ == s2);
                                        lemma_entry_index_unique(sv, i, s2);
                                    } else {
                                        assert(sv[i - 1].0@ == s2);
                                        lemma_entry_index_unique(sv, i - 1, s2);
                                    }
                                }
                            }
                            lemma_entry_index_none(nv, s2, 0);
                        },
                    }
                }
            }
        }
    }
}

/// A line of written YAML as saved: an indented `name: null` becomes the
/// bare `name:`.
pub open spec fn tidy_line_s(l: Seq<char>) -> Seq<char> {
    if crate::text::starts_with_s(l, "  "@) && crate::text::ends_with_s(l, ": null"@) {
        crate::text::trim_end_s(l.take(l.len() - 4))
    } else {
        l
    }
}

/// The YAML text as saved: each line tidied, joined with newlines, with a
/// final newline.
pub open spec fn tidy_yaml_s(raw: Seq<char>) -> Seq<char> {
    crate::text::join_s(crate::text::lines_of(raw).map_values(|l: Seq<char>| tidy_line_s(l)), "\n"@) + "\n"@
}

/// The serialized configuration as written to disk: services with nothing
/// configured read `name:` rather than `name: null`.
pub fn tidy_yaml(raw: &str) -> (r: String)
    ensures
        r@ == tidy_yaml_s(raw@),
{
    let lines = crate::text::split_lines(&chars_of(raw));
    let ghost lv = crate::text::lines_view(lines@);
    let mut out: Vec<Vec<char>> = Vec::new();
    let mut i: usize = 0;
    while i < lines.len()
        invariant
            i <= lines.len(),
            lv == crate::text::lines_view(lines@),
            crate::text::lines_view(out@) == lv.take(i as int).map_values(|l: Seq<char>| tidy_line_s(l)),
        decreases lines.len() - i,
    {
        let l = &lines[i];
        let ends = crate::text::ends_with(l, chars_of(": null").as_slice());
        proof {
            reveal_strlit(": null");
            if ends {
                assert(l@.len() >= 6);
            }
        }
        let t = if crate::text::starts_with(l, chars_of("  ").as_slice()) && ends {
            crate::text::trim_end(&crate::text::slice(l, 0, l.len() - 4))
        } else {
            crate::text::slice(l, 0, l.len())
        };
        proof {
            assert(l@.subrange(0, l@.len() as int) =~= l@);
            if crate::text::ends_with_s(l@, ": null"@) {
                reveal_strlit(": null");
                assert(l@.len() >= 6);
                assert(l@.subrange(0, l@.len() - 4) =~= l@.take(l@.len() - 4));
            }
        }
        let ghost before = crate::text::lines_view(out@);
        out.push(t);
        proof {
            assert(crate::text::lines_view(out@) =~= before.push(tidy_line_s(lv[i as int])));
            assert(lv.take(i + 1) =~= lv.take(i as int).push(lv[i as int]));
        }
        i = i + 1;
    }
    assert(lv.take(lines.len() as int) =~= lv);
    let mut text = crate::text::join(&out, chars_of("\n").as_slice());
    text.push('\n');
    proof {
        reveal_strlit("\n");
    }
    string_of(&text)
}

} // verus!
