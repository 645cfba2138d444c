//! Core domain types shared across the library: file kinds, env files,
//! services, index entries and the configuration source.

use std::path::PathBuf;

use vstd::prelude::*;

use crate::text::{eq_str};

verus! {

/// Filesystem paths are carried through the library unchanged.
#[verifier::external_type_specification]
#[verifier::external_body]
pub struct ExPathBuf(PathBuf);

/// `PathBuf::clone` yields an equal path.
pub assume_specification[ <PathBuf as Clone>::clone ](p: &PathBuf) -> (res: PathBuf)
    ensures
        res == *p,
;

/// The four kinds of env-bearing files.
#[derive(Debug, Clone, Copy, PartialEq, Eq, Hash, Structural)]
pub enum FileKind {
    /// `.env`
    Dotenv,
    /// `.env.example`
    DotenvExample,
    /// `configmap*.yml` / `configmap*.yaml`
    ConfigMap,
    /// `secrets*.yml` / `secrets*.yaml`
    Secret,
}

/// The label of a file kind, as used in the config file and the UI.
pub open spec fn kind_label_s(k: FileKind) -> Seq<char> {
    match k {
        FileKind::Dotenv => "dotenv"@,
        FileKind::DotenvExample => "dotenv_example"@,
        FileKind::ConfigMap => "configmap"@,
        FileKind::Secret => "secret"@,
    }
}

impl FileKind {
    /// Human-readable label used in the config file and UI.
    pub fn label(self) -> (r: &'static str)
        ensures
            r@ == kind_label_s(self),
    {
        match self {
            FileKind::Dotenv => "dotenv",
            FileKind::DotenvExample => "dotenv_example",
            FileKind::ConfigMap => "configmap",
            FileKind::Secret => "secret",
        }
    }

    /// Whether this kind is a template that never receives real generated
    /// secrets (they are written empty instead).
    pub fn is_example(self) -> (r: bool)
        ensures
            r == (self == FileKind::DotenvExample),
    {
        matches!(self, FileKind::DotenvExample)
    }

    /// Whether this kind is parsed as YAML.
    pub fn is_yaml(self) -> (r: bool)
        ensures
            r == (self == FileKind::ConfigMap || self == FileKind::Secret),
    {
        matches!(self, FileKind::ConfigMap | FileKind::Secret)
    }
}

/// A single env file belonging to a service.
#[derive(Debug)]
pub struct EnvFile {
    pub kind: FileKind,
    /// Absolute path on disk.
    pub path: PathBuf,
    /// Path relative to the service directory, for display.
    pub display: String,
}

impl EnvFile {
    /// A copy of this file entry.
    pub fn duplicate(&self) -> (r: EnvFile)
        ensures
            r.kind == self.kind,
            r.path == self.path,
            r.display@ == self.display@,
    {
        EnvFile { kind: self.kind, path: self.path.clone(), display: self.display.clone() }
    }
}

/// A discovered microservice and its env files.
#[derive(Debug)]
pub struct Service {
    pub name: String,
    /// Absolute path to the service directory.
    pub path: PathBuf,
    /// Every env file that belongs to this service.
    pub files: Vec<EnvFile>,
}

/// A key/value pair found inside a specific file of a specific service.
#[derive(Debug)]
pub struct EnvKey {
    pub service: String,
    pub file_display: String,
    pub file_kind: FileKind,
    pub file_path: PathBuf,
    pub key: String,
    pub value: String,
}

/// Where the effective configuration came from.
#[derive(Debug, Clone, Copy, PartialEq, Eq, Structural)]
pub enum ConfigSource {
    /// Loaded from an `nv.yml` file.
    NvYml,
    /// Derived purely from command-line flags.
    CommandLine,
}

/// The banner line announcing the configuration source.
pub open spec fn banner_s(s: ConfigSource) -> Seq<char> {
    match s {
        ConfigSource::NvYml => "Config source: nv.yml"@,
        ConfigSource::CommandLine => "Config source: command-line"@,
    }
}

impl ConfigSource {
    /// The "Config source: ..." banner.
    pub fn banner(self) -> (r: &'static str)
        ensures
            r@ == banner_s(self),
    {
        match self {
            ConfigSource::NvYml => "Config source: nv.yml",
            ConfigSource::CommandLine => "Config source: command-line",
        }
    }
}

/// Why a `(service, file)` pair could not be resolved.
#[derive(Debug, PartialEq, Eq)]
pub enum TargetError {
    /// No service has the given name.
    ServiceNotFound(String),
    /// The service has no file with the given display path.
    FileNotFound { service: String, file: String },
}

/// Find an [`EnvFile`] by service name and display path: the first service
/// with that name, then the first of its files with that display path.
pub fn find_target<'a>(services: &'a [Service], service_name: &str, file_path: &str) -> (r: Result<
    &'a EnvFile,
    TargetError,
>)
    ensures
        match r {
            Ok(f) => exists|i: int, j: int|
                0 <= i < services@.len() && services@[i].name@ == service_name@ && (forall|
                    i2: int,
                |
                    0 <= i2 < i ==> (#[trigger] services@[i2]).name@ != service_name@) && 0 <= j
                    < services@[i].files@.len() && *f == services@[i].files@[j]
                    && services@[i].files@[j].display@ == file_path@ && (forall|j2: int|
                    0 <= j2 < j ==> (#[trigger] services@[i].files@[j2]).display@ != file_path@),
            Err(TargetError::ServiceNotFound(n)) => n@ == service_name@ && forall|i: int|
                0 <= i < services@.len() ==> (#[trigger] services@[i]).name@ != service_name@,
            Err(TargetError::FileNotFound { service, file }) => service@ == service_name@
                && file@ == file_path@ && exists|i: int|
                0 <= i < services@.len() && services@[i].name@ == service_name@ && (forall|
                    i2: int,
                |
                    0 <= i2 < i ==> (#[trigger] services@[i2]).name@ != service_name@) && forall|
                    j: int,
                |
                    0 <= j < services@[i].files@.len() ==> (#[trigger] services@[i].files@[j]).display@
                        != file_path@,
        },
{
    let mut i: usize = 0;
    while i < services.len()
        invariant
            i <= services@.len(),
            forall|i2: int| 0 <= i2 < i ==> (#[trigger] services@[i2]).name@ != service_name@,
        decreases services.len() - i,
    {
        if eq_str(services[i].name.as_str(), service_name) {
            let files = &services[i].files;
            let mut j: usize = 0;
            while j < files.len()
                invariant
                    i < services@.len(),
                    *files == services@[i as int].files,
                    services@[i as int].name@ == service_name@,
                    forall|i2: int| 0 <= i2 < i ==> (#[trigger] services@[i2]).name@ != service_name@,
                    j <= files@.len(),
                    forall|j2: int| 0 <= j2 < j ==> (#[trigger] files@[j2]).display@ != file_path@,
                decreases files.len() - j,
            {
                if eq_str(files[j].display.as_str(), file_path) {
                    assert(services@[i as int].files@[j as int] == files@[j as int]);
                    assert(0 <= j < services@[i as int].files@.len() && services@[i as int].files@[j as int].display@ == file_path@);
                    return Ok(&files[j]);
                }
                j = j + 1;
            }
            return Err(
                TargetError::FileNotFound {
                    service: service_name.to_owned(),
                    file: file_path.to_owned(),
                },
            );
        }
        i = i + 1;
    }
    Err(TargetError::ServiceNotFound(service_name.to_owned()))
}

} // verus!
