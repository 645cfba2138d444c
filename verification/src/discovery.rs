//! Which folders are services and which files inside them are env files:
//! the decisions made while scanning, and the files a configuration lists.

use vstd::prelude::*;

use crate::config::ServiceFiles;
use crate::context::has_string;
use crate::model::FileKind;
use crate::parser::strings_view;
use crate::text::{chars_of, starts_with, starts_with_s};

verus! {

/// Folders never searched for env files: version control, editor state,
/// dependency and build output.
pub open spec fn noise_dirs() -> Seq<Seq<char>> {
    seq![".git"@, "node_modules"@, "target"@, "dist"@, "build"@, "vendor"@, ".venv"@, "__pycache__"@]
}

/// How deep the scan for env files goes inside a service folder.
pub const MAX_DEPTH: usize = 8;

/// Whether a subfolder of the services root is a service: not hidden and
/// not ignored.
pub fn is_service_dir(name: &str, ignore: &Vec<String>) -> (r: bool)
    ensures
        r == (!starts_with_s(name@, "."@) && !strings_view(ignore@).contains(name@)),
{
    !starts_with(&chars_of(name), chars_of(".").as_slice()) && !has_string(ignore, name)
}

/// Whether the scan for env files enters a folder: not hidden and not a
/// noise folder.
pub fn enters_dir(name: &str) -> (r: bool)
    ensures
        r == (!starts_with_s(name@, "."@) && !noise_dirs().contains(name@)),
{
    let noise: Vec<String> = vec![
        ".git".to_string(),
        "node_modules".to_string(),
        "target".to_string(),
        "dist".to_string(),
        "build".to_string(),
        "vendor".to_string(),
        ".venv".to_string(),
        "__pycache__".to_string(),
    ];
    assert(strings_view(noise@) =~= noise_dirs());
    !starts_with(&chars_of(name), chars_of(".").as_slice()) && !has_string(&noise, name)
}

/// The files a configuration lists for a service: every dotenv name, then
/// the examples, the configmaps and the secrets, each with its kind.
pub open spec fn configured_s(sel: ServiceFiles) -> Seq<(FileKind, Seq<char>)> {
    group_s(FileKind::Dotenv, sel.dotenv) + group_s(FileKind::DotenvExample, sel.dotenv_example) + group_s(
        FileKind::ConfigMap,
        sel.configmap,
    ) + group_s(FileKind::Secret, sel.secret)
}

/// The names of one kind, each with the kind.
pub open spec fn group_s(kind: FileKind, names: Option<Vec<String>>) -> Seq<(FileKind, Seq<char>)> {
    match names {
        Some(v) => strings_view(v@).map_values(|n: Seq<char>| (kind, n)),
        None => seq![],
    }
}

fn push_group(out: &mut Vec<(FileKind, String)>, kind: FileKind, names: &Option<Vec<String>>)
    ensures
        final(out)@.map_values(|p: (FileKind, String)| (p.0, p.1@)) == old(out)@.map_values(
            |p: (FileKind, String)| (p.0, p.1@),
        ) + group_s(kind, *names),
{
    let ghost start = out@.map_values(|p: (FileKind, String)| (p.0, p.1@));
    match names {
        Some(v) => {
            let mut i: usize = 0;
            while i < v.len()
                invariant
                    i <= v.len(),
                    out@.map_values(|p: (FileKind, String)| (p.0, p.1@)) == start + strings_view(v@).take(i as int).map_values(
                        |n: Seq<char>| (kind, n),
                    ),
                decreases v.len() - i,
            {
                let ghost before = out@.map_values(|p: (FileKind, String)| (p.0, p.1@));
                out.push((kind, v[i].clone()));
                proof {
                    assert(out@.map_values(|p: (FileKind, String)| (p.0, p.1@)) =~= before.push((kind, v@[i as int]@)));
                    assert(strings_view(v@).take(i + 1) =~= strings_view(v@).take(i as int).push(v@[i as int]@));
                }
                i = i + 1;
            }
            assert(strings_view(v@).take(v.len() as int) =~= strings_view(v@));
        },
        None => {
            assert(start + Seq::<(FileKind, Seq<char>)>::empty() =~= start);
        },
    }
}

/// The file names a configuration lists for a service, with their kinds,
/// dotenv first, then examples, configmaps and secrets.
pub fn configured_files(sel: &ServiceFiles) -> (r: Vec<(FileKind, String)>)
    ensures
        r@.map_values(|p: (FileKind, String)| (p.0, p.1@)) == configured_s(*sel),
{
    let mut out: Vec<(FileKind, String)> = Vec::new();
    assert(out@.map_values(|p: (FileKind, String)| (p.0, p.1@)) =~= Seq::<(FileKind, Seq<char>)>::empty());
    push_group(&mut out, FileKind::Dotenv, &sel.dotenv);
    push_group(&mut out, FileKind::DotenvExample, &sel.dotenv_example);
    push_group(&mut out, FileKind::ConfigMap, &sel.configmap);
    push_group(&mut out, FileKind::Secret, &sel.secret);
    assert(Seq::<(FileKind, Seq<char>)>::empty() + group_s(FileKind::Dotenv, sel.dotenv) =~= group_s(FileKind::Dotenv, sel.dotenv));
    out
}

} // verus!
