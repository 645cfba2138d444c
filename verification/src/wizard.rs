//! What the setup questions produce: the files chosen for a service, and
//! the configuration written from the answers.

use vstd::prelude::*;

use crate::config::{entry_names, service_entry, Config, ServiceConfig, ServiceFiles};
use crate::model::{EnvFile, FileKind};
use crate::parser::strings_view;
use crate::text::{chars_of, string_of};

verus! {

/// The view of an optional list of strings.
pub open spec fn opt_strings(o: Option<Vec<String>>) -> Option<Seq<Seq<char>>> {
    match o {
        Some(v) => Some(strings_view(v@)),
        None => None,
    }
}

/// The displays of the chosen files of `kind`, in the order chosen.
pub open spec fn chosen_of_kind(files: Seq<EnvFile>, chosen: Seq<usize>, kind: FileKind) -> Seq<Seq<char>>
    decreases chosen.len(),
{
    if chosen.len() == 0 {
        seq![]
    } else {
        let f = files[chosen.last() as int];
        let rest = chosen_of_kind(files, chosen.drop_last(), kind);
        if f.kind == kind {
            rest.push(f.display@)
        } else {
            rest
        }
    }
}

/// A kind's list: absent when no file of the kind was chosen.
pub open spec fn bucket_s(l: Seq<Seq<char>>) -> Option<Seq<Seq<char>>> {
    if l.len() == 0 {
        None
    } else {
        Some(l)
    }
}

fn push_opt(b: &mut Option<Vec<String>>, s: String)
    ensures
        opt_strings(*final(b)) == Some(match opt_strings(*old(b)) {
            Some(l) => l,
            None => seq![],
        }.push(s@)),
{
    match b {
        Some(v) => {
            let ghost before = strings_view(v@);
            v.push(s);
            assert(strings_view(v@) =~= before.push(s@));
        },
        None => {
            let mut v: Vec<String> = Vec::new();
            v.push(s);
            assert(strings_view(v@) =~= seq![].push(s@));
            *b = Some(v);
        },
    }
}

/// The files chosen for a service (`chosen` indexes `files`), grouped by
/// kind in the order chosen; a kind none of whose files was chosen is left
/// to discovery.
pub fn files_choice(files: &Vec<EnvFile>, chosen: &Vec<usize>) -> (r: ServiceFiles)
    requires
        forall|k: int| 0 <= k < chosen@.len() ==> (#[trigger] chosen@[k]) < files@.len(),
    ensures
        opt_strings(r.dotenv) == bucket_s(chosen_of_kind(files@, chosen@, FileKind::Dotenv)),
        opt_strings(r.dotenv_example) == bucket_s(chosen_of_kind(files@, chosen@, FileKind::DotenvExample)),
        opt_strings(r.configmap) == bucket_s(chosen_of_kind(files@, chosen@, FileKind::ConfigMap)),
        opt_strings(r.secret) == bucket_s(chosen_of_kind(files@, chosen@, FileKind::Secret)),
{
    let mut out = ServiceFiles { dotenv: None, dotenv_example: None, configmap: None, secret: None };
    let mut k: usize = 0;
    while k < chosen.len()
        invariant
            k <= chosen.len(),
            forall|q: int| 0 <= q < chosen@.len() ==> (#[trigger] chosen@[q]) < files@.len(),
            opt_strings(out.dotenv) == bucket_s(chosen_of_kind(files@, chosen@.take(k as int), FileKind::Dotenv)),
            opt_strings(out.dotenv_example) == bucket_s(chosen_of_kind(files@, chosen@.take(k as int), FileKind::DotenvExample)),
            opt_strings(out.configmap) == bucket_s(chosen_of_kind(files@, chosen@.take(k as int), FileKind::ConfigMap)),
            opt_strings(out.secret) == bucket_s(chosen_of_kind(files@, chosen@.take(k as int), FileKind::Secret)),
        decreases chosen.len() - k,
    {
        let f = &files[chosen[k]];
        proof {
            assert(chosen@.take(k + 1).drop_last() =~= chosen@.take(k as int));
            assert(chosen@.take(k + 1).last() == chosen@[k as int]);
        }
        let d = f.display.clone();
        match f.kind {
            FileKind::Dotenv => push_opt(&mut out.dotenv, d),
            FileKind::DotenvExample => push_opt(&mut out.dotenv_example, d),
            FileKind::ConfigMap => push_opt(&mut out.configmap, d),
            FileKind::Secret => push_opt(&mut out.secret, d),
        }
        k = k + 1;
    }
    assert(chosen@.take(chosen@.len() as int) =~= chosen@);
    out
}

/// The entry written for the `k`-th chosen folder.
pub open spec fn chosen_entry(customize: bool, files: Seq<ServiceFiles>, k: int) -> ServiceConfig {
    ServiceConfig { path: None, files: if customize { Some(files[k]) } else { None }, commands: None }
}

/// The configuration the answers produce: `services_root`, and, unless
/// every discovered folder was kept with its files left to discovery, one
/// entry per chosen folder (`chosen` indexes `names`), with the files
/// chosen for it when the files were customized (`files[k]` for the
/// `k`-th chosen folder).
pub fn wizard_config(services_root: &str, names: &Vec<String>, chosen: &Vec<usize>, customize: bool, files: Vec<ServiceFiles>) -> (r: Config)
    requires
        strings_view(names@).no_duplicates(),
        chosen@.no_duplicates(),
        forall|k: int| 0 <= k < chosen@.len() ==> (#[trigger] chosen@[k]) < names@.len(),
        customize ==> files@.len() == chosen@.len(),
    ensures
        r.wf(),
        r.services_root@ == services_root@,
        r.secrets@.len() == 0,
        r.commands is None,
        r.colors == crate::color::default_colors(),
        chosen@.len() == names@.len() && !customize ==> r.services@.len() == 0,
        !(chosen@.len() == names@.len() && !customize) ==> {
            &&& entry_names(r.services@).to_set() == chosen@.map_values(|i: usize| names@[i as int]@).to_set()
            &&& forall|k: int| 0 <= k < chosen@.len() ==> service_entry(r, (#[trigger] names@[chosen@[k] as int])@) == Some(
                chosen_entry(customize, files@, k),
            )
        },
{
    let mut cfg = Config::default();
    cfg.services_root = string_of(&chars_of(services_root));
    if chosen.len() == names.len() && !customize {
        return cfg;
    }
    let ghost all_files = files@;
    let ghost cn = chosen@.map_values(|i: usize| names@[i as int]@);
    let mut rest = files;
    let mut k: usize = 0;
    assert(entry_names(cfg.services@).to_set() =~= cn.take(0).to_set());
    while k < chosen.len()
        invariant
            k <= chosen.len(),
            cfg.wf(),
            cfg.services_root@ == services_root@,
            cfg.secrets@.len() == 0,
            cfg.commands is None,
            cfg.colors == crate::color::default_colors(),
            strings_view(names@).no_duplicates(),
            chosen@.no_duplicates(),
            forall|q: int| 0 <= q < chosen@.len() ==> (#[trigger] chosen@[q]) < names@.len(),
            cn == chosen@.map_values(|i: usize| names@[i as int]@),
            customize ==> all_files.len() == chosen@.len(),
            customize ==> rest@ == all_files.skip(k as int),
            entry_names(cfg.services@).to_set() == cn.take(k as int).to_set(),
            forall|q: int| 0 <= q < k ==> service_entry(cfg, (#[trigger] names@[chosen@[q] as int])@) == Some(
                chosen_entry(customize, all_files, q),
            ),
        decreases chosen.len() - k,
    {
        let name = &names[chosen[k]];
        let files_k = if customize {
            let f = rest.remove(0);
            proof {
                assert(f == all_files[k as int]);
                assert(rest@ =~= all_files.skip(k + 1));
            }
            Some(f)
        } else {
            None
        };
        let sc = ServiceConfig { path: None, files: files_k, commands: None };
        assert(sc == chosen_entry(customize, all_files, k as int));
        let ghost before = cfg;
        cfg.put_service(name.as_str(), sc);
        proof {
            assert(cn[k as int] == name@);
            assert(cn.take(k + 1) =~= cn.take(k as int).push(name@));
            cn.take(k as int).lemma_push_to_set_commute(name@);
            assert forall|q: int| 0 <= q < k + 1 implies service_entry(cfg, (#[trigger] names@[chosen@[q] as int])@) == Some(
                chosen_entry(customize, all_files, q),
            ) by {
                if q < k {
                    assert(chosen@[q] != chosen@[k as int]);
                    assert(strings_view(names@)[chosen@[q] as int] != strings_view(names@)[chosen@[k as int] as int]);
                }
            }
        }
        k = k + 1;
    }
    assert(cn.take(chosen@.len() as int) =~= cn);
    cfg
}

} // verus!
