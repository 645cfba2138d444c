//! Removing keys: which file kinds the flags select, and the edits that
//! drop the keys from each target file.

use vstd::prelude::*;

use crate::edit::{ChangeSet, FileChange, Target};
use crate::model::FileKind;
use crate::parser::{remove_key, remove_kind_s, strings_view};
use crate::text::{chars_of, eq_chars, join, join_s, lines_view, string_of};

verus! {

/// Why the remove flags were refused.
#[derive(Debug, Clone, Copy, PartialEq, Eq, Structural)]
pub enum RemoveError {
    /// No key was given.
    NoKeys,
    /// `-a` was combined with a file-kind flag or a service.
    AllWithFilters,
    /// Nothing selects the files to edit.
    NothingSelected,
}

impl RemoveError {
    /// The error message.
    pub fn message(self) -> (r: &'static str)
        ensures
            self == RemoveError::NoKeys ==> r@ == "no keys specified; provide at least one key to remove"@,
            self == RemoveError::AllWithFilters ==> r@ == "-a cannot be combined with -e, -c, -x, or -s"@,
            self == RemoveError::NothingSelected ==> r@ == "specify at least one of -e (env), -c (configmap), -x (secrets), -a (all), or -s <NAME>"@,
    {
        match self {
            RemoveError::NoKeys => "no keys specified; provide at least one key to remove",
            RemoveError::AllWithFilters => "-a cannot be combined with -e, -c, -x, or -s",
            RemoveError::NothingSelected => "specify at least one of -e (env), -c (configmap), -x (secrets), -a (all), or -s <NAME>",
        }
    }
}

/// The kinds the flags select: all four with `-a` or when only services
/// are named; else the dotenv kinds for `-e`, configmaps for `-c`, secrets
/// for `-x`, in that order.
pub open spec fn selected_kinds(all: bool, env: bool, configmap: bool, secrets: bool) -> Seq<FileKind> {
    if all || (!env && !configmap && !secrets) {
        seq![FileKind::Dotenv, FileKind::DotenvExample, FileKind::ConfigMap, FileKind::Secret]
    } else {
        (if env { seq![FileKind::Dotenv, FileKind::DotenvExample] } else { seq![] }) + (if configmap {
            seq![FileKind::ConfigMap]
        } else {
            seq![]
        }) + (if secrets { seq![FileKind::Secret] } else { seq![] })
    }
}

/// Which kinds the remove flags select: `-a`, or no file flag at all,
/// selects every kind; otherwise `-e` selects the dotenv files (with their
/// examples), `-c` the configmaps and `-x` the secrets files, and nothing
/// else. Each kind is selected at most once.
pub proof fn law_remove_flags_select(all: bool, env: bool, configmap: bool, secrets: bool)
    ensures
        ({
            let k = selected_kinds(all, env, configmap, secrets);
            let every = all || (!env && !configmap && !secrets);
            &&& k.contains(FileKind::Dotenv) <==> (every || env)
            &&& k.contains(FileKind::DotenvExample) <==> (every || env)
            &&& k.contains(FileKind::ConfigMap) <==> (every || configmap)
            &&& k.contains(FileKind::Secret) <==> (every || secrets)
            &&& k.no_duplicates()
        }),
{
    let k = selected_kinds(all, env, configmap, secrets);
    let every = all || (!env && !configmap && !secrets);
    if every {
        assert(k[0] == FileKind::Dotenv && k[1] == FileKind::DotenvExample && k[2] == FileKind::ConfigMap
            && k[3] == FileKind::Secret);
    } else {
        let a: Seq<FileKind> = if env { seq![FileKind::Dotenv, FileKind::DotenvExample] } else { seq![] };
        let b: Seq<FileKind> = if configmap { seq![FileKind::ConfigMap] } else { seq![] };
        let c: Seq<FileKind> = if secrets { seq![FileKind::Secret] } else { seq![] };
        assert(k == a + b + c);
        assert forall|x: FileKind| k.contains(x) <==> (a.contains(x) || b.contains(x) || c.contains(x)) by {
            if k.contains(x) {
                let i = choose|i: int| 0 <= i < k.len() && k[i] == x;
                if i < a.len() {
                    assert(a[i] == x);
                } else if i < a.len() + b.len() {
                    assert(b[i - a.len()] == x);
                } else {
                    assert(c[i - a.len() - b.len()] == x);
                }
            }
            if a.contains(x) {
                let i = choose|i: int| 0 <= i < a.len() && a[i] == x;
                assert(k[i] == x);
            }
            if b.contains(x) {
                let i = choose|i: int| 0 <= i < b.len() && b[i] == x;
                assert(k[a.len() + i] == x);
            }
            if c.contains(x) {
                let i = choose|i: int| 0 <= i < c.len() && c[i] == x;
                assert(k[a.len() + b.len() + i] == x);
            }
        }
        if env {
            assert(a[0] == FileKind::Dotenv && a[1] == FileKind::DotenvExample);
        }
        if configmap {
            assert(b[0] == FileKind::ConfigMap);
        }
        if secrets {
            assert(c[0] == FileKind::Secret);
        }
        assert(k.no_duplicates()) by {
            assert forall|i: int, j: int| 0 <= i < k.len() && 0 <= j < k.len() && i != j implies k[i] != k[j] by {
                let la = a.len();
                let lb = b.len();
                if i < la {
                    assert(k[i] == a[i]);
                } else if i < la + lb {
                    assert(k[i] == b[i - la]);
                } else {
                    assert(k[i] == c[i - la - lb]);
                }
                if j < la {
                    assert(k[j] == a[j]);
                } else if j < la + lb {
                    assert(k[j] == b[j - la]);
                } else {
                    assert(k[j] == c[j - la - lb]);
                }
            }
        }
    }
}

/// Check the remove flags and return the file kinds they select. No keys,
/// `-a` with another filter, or no filter at all are errors (checked in
/// that order).
pub fn remove_kinds(key_count: usize, all: bool, env: bool, configmap: bool, secrets: bool, has_services: bool) -> (r: Result<Vec<FileKind>, RemoveError>)
    ensures
        key_count == 0 ==> r == Err::<Vec<FileKind>, RemoveError>(RemoveError::NoKeys),
        key_count > 0 && all && (env || configmap || secrets || has_services) ==> r == Err::<Vec<FileKind>, RemoveError>(RemoveError::AllWithFilters),
        key_count > 0 && !all && !env && !configmap && !secrets && !has_services ==> r == Err::<Vec<FileKind>, RemoveError>(RemoveError::NothingSelected),
        r matches Ok(v) ==> v@ == selected_kinds(all, env, configmap, secrets),
        (key_count > 0 && !(all && (env || configmap || secrets || has_services)) && (all || env || configmap || secrets || has_services)) ==> r is Ok,
{
    if key_count == 0 {
        return Err(RemoveError::NoKeys);
    }
    if all && (env || configmap || secrets || has_services) {
        return Err(RemoveError::AllWithFilters);
    }
    if !all && !env && !configmap && !secrets && !has_services {
        return Err(RemoveError::NothingSelected);
    }
    let mut kinds: Vec<FileKind> = Vec::new();
    if all || (!env && !configmap && !secrets) {
        kinds.push(FileKind::Dotenv);
        kinds.push(FileKind::DotenvExample);
        kinds.push(FileKind::ConfigMap);
        kinds.push(FileKind::Secret);
    } else {
        if env {
            kinds.push(FileKind::Dotenv);
            kinds.push(FileKind::DotenvExample);
        }
        if configmap {
            kinds.push(FileKind::ConfigMap);
        }
        if secrets {
            kinds.push(FileKind::Secret);
        }
    }
    assert(kinds@ =~= selected_kinds(all, env, configmap, secrets));
    Ok(kinds)
}

/// The content after removing each key in turn.
pub open spec fn remove_all_s(content: Seq<char>, kind: FileKind, keys: Seq<Seq<char>>) -> Seq<char>
    decreases keys.len(),
{
    if keys.len() == 0 {
        content
    } else {
        remove_kind_s(remove_all_s(content, kind, keys.drop_last()), kind, keys.last())
    }
}

/// The content after removing every key, one after the other.
pub fn remove_keys(content: &str, kind: FileKind, keys: &Vec<String>) -> (r: String)
    ensures
        r@ == remove_all_s(content@, kind, strings_view(keys@)),
{
    let ghost kv = strings_view(keys@);
    let mut cur = string_of(&chars_of(content));
    let mut i: usize = 0;
    while i < keys.len()
        invariant
            i <= keys.len(),
            kv == strings_view(keys@),
            cur@ == remove_all_s(content@, kind, kv.take(i as int)),
        decreases keys.len() - i,
    {
        cur = remove_key(cur.as_str(), kind, keys[i].as_str());
        assert(kv.take(i + 1).drop_last() =~= kv.take(i as int));
        i = i + 1;
    }
    assert(kv.take(keys.len() as int) =~= kv);
    cur
}

/// The indices, in order, of the first `n` targets whose content removing
/// the keys changes.
pub open spec fn removed_targets(targets: Seq<Target>, olds: Seq<String>, keys: Seq<Seq<char>>, n: int) -> Seq<int>
    decreases n,
{
    if n <= 0 {
        seq![]
    } else {
        let prev = removed_targets(targets, olds, keys, n - 1);
        if remove_all_s(olds[n - 1]@, targets[n - 1].file.kind, keys) != olds[n - 1]@ {
            prev.push(n - 1)
        } else {
            prev
        }
    }
}

/// The edits that remove `keys` from each target (target `i` currently
/// holding `old_contents[i]`), keeping only the targets that change; each
/// edit names the keys joined with `, `.
pub fn remove_changes(targets: &Vec<Target>, keys: &Vec<String>, old_contents: &Vec<String>) -> (r: ChangeSet)
    requires
        old_contents@.len() == targets@.len(),
    ensures
        forall|k: int| 0 <= k < r.changes@.len() ==> {
            let c = #[trigger] r.changes@[k];
            &&& c.new_content@ != c.old_content@
            &&& c.key@ == join_s(strings_view(keys@), ", "@)
            &&& c.value@.len() == 0
            &&& exists|i: int| 0 <= i < targets@.len() && c.service@ == targets@[i].service@ && c.display@
                == targets@[i].file.display@ && c.path == targets@[i].file.path && c.kind
                == targets@[i].file.kind && c.old_content@ == old_contents@[i]@ && c.new_content@
                == remove_all_s(old_contents@[i]@, targets@[i].file.kind, strings_view(keys@))
        },
        forall|i: int| 0 <= i < targets@.len() && remove_all_s(old_contents@[i]@, targets@[i].file.kind, strings_view(keys@)) != old_contents@[i]@
            ==> exists|k: int| 0 <= k < r.changes@.len() && (#[trigger] r.changes@[k]).display@ == targets@[i].file.display@
                && r.changes@[k].path == targets@[i].file.path && r.changes@[k].service@ == targets@[i].service@,
        ({
            let ix = removed_targets(targets@, old_contents@, strings_view(keys@), targets@.len() as int);
            &&& r.changes@.len() == ix.len()
            &&& forall|k: int| 0 <= k < ix.len() ==> {
                let c = #[trigger] r.changes@[k];
                let i = ix[k];
                &&& c.service@ == targets@[i].service@
                &&& c.display@ == targets@[i].file.display@
                &&& c.path == targets@[i].file.path
                &&& c.kind == targets@[i].file.kind
                &&& c.old_content@ == old_contents@[i]@
                &&& c.new_content@ == remove_all_s(old_contents@[i]@, targets@[i].file.kind, strings_view(keys@))
            }
        }),
{
    let mut key_lines: Vec<Vec<char>> = Vec::new();
    let mut j: usize = 0;
    while j < keys.len()
        invariant
            j <= keys.len(),
            lines_view(key_lines@) == strings_view(keys@).take(j as int),
        decreases keys.len() - j,
    {
        let ghost before = lines_view(key_lines@);
        key_lines.push(chars_of(keys[j].as_str()));
        assert(lines_view(key_lines@) =~= before.push(keys@[j as int]@));
        assert(strings_view(keys@).take(j + 1) =~= strings_view(keys@).take(j as int).push(keys@[j as int]@));
        j = j + 1;
    }
    assert(strings_view(keys@).take(keys.len() as int) =~= strings_view(keys@));
    let joined = string_of(&join(&key_lines, chars_of(", ").as_slice()));
    let mut changes: Vec<FileChange> = Vec::new();
    let mut i: usize = 0;
    while i < targets.len()
        invariant
            i <= targets.len(),
            old_contents@.len() == targets@.len(),
            joined@ == join_s(strings_view(keys@), ", "@),
            forall|k: int| 0 <= k < changes@.len() ==> {
                let c = #[trigger] changes@[k];
                &&& c.new_content@ != c.old_content@
                &&& c.key@ == join_s(strings_view(keys@), ", "@)
                &&& c.value@.len() == 0
                &&& exists|i: int| 0 <= i < targets@.len() && c.service@ == targets@[i].service@ && c.display@
                    == targets@[i].file.display@ && c.path == targets@[i].file.path && c.kind
                    == targets@[i].file.kind && c.old_content@ == old_contents@[i]@ && c.new_content@
                    == remove_all_s(old_contents@[i]@, targets@[i].file.kind, strings_view(keys@))
            },
            forall|q: int| 0 <= q < i && remove_all_s(old_contents@[q]@, targets@[q].file.kind, strings_view(keys@)) != old_contents@[q]@
                ==> exists|k: int| 0 <= k < changes@.len() && (#[trigger] changes@[k]).display@ == targets@[q].file.display@
                    && changes@[k].path == targets@[q].file.path && changes@[k].service@ == targets@[q].service@,
            changes@.len() == removed_targets(targets@, old_contents@, strings_view(keys@), i as int).len(),
            forall|k: int| 0 <= k < changes@.len() ==> {
                let c = #[trigger] changes@[k];
                let ix = removed_targets(targets@, old_contents@, strings_view(keys@), i as int);
                &&& c.service@ == targets@[ix[k]].service@
                &&& c.display@ == targets@[ix[k]].file.display@
                &&& c.path == targets@[ix[k]].file.path
                &&& c.kind == targets@[ix[k]].file.kind
                &&& c.old_content@ == old_contents@[ix[k]]@
                &&& c.new_content@ == remove_all_s(old_contents@[ix[k]]@, targets@[ix[k]].file.kind, strings_view(keys@))
            },
        decreases targets.len() - i,
    {
        let t = &targets[i];
        let old = &old_contents[i];
        let new_content = remove_keys(old.as_str(), t.file.kind, keys);
        if !eq_chars(&chars_of(new_content.as_str()), &chars_of(old.as_str())) {
            let c = FileChange {
                service: t.service.clone(),
                display: t.file.display.clone(),
                path: t.file.path.clone(),
                kind: t.file.kind,
                key: joined.clone(),
                value: String::new(),
                old_content: old.clone(),
                new_content,
            };
            let ghost cv = c;
            assert(0 <= i < targets@.len() && cv.service@ == targets@[i as int].service@ && cv.display@
                == targets@[i as int].file.display@ && cv.path == targets@[i as int].file.path && cv.kind
                == targets@[i as int].file.kind && cv.old_content@ == old_contents@[i as int]@ && cv.new_content@
                == remove_all_s(old_contents@[i as int]@, targets@[i as int].file.kind, strings_view(keys@)));
            let ghost before = changes@;
            changes.push(c);
            assert(changes@[changes@.len() - 1] == cv);
            assert(forall|k: int| 0 <= k < before.len() ==> changes@[k] == before[k]);
        }
        i = i + 1;
    }
    ChangeSet { changes }
}

} // verus!
