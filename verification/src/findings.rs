//! Findings of the scanning checks (possible leaks, fake secrets): how the
//! leaks check reads a file, how findings are listed, marked as false alarms
//! and cleaned out of their files.

use vstd::prelude::*;

use crate::color::{colored_kv_label, kv_label_s, ColorConfig};
use crate::config::{is_false_alarm_s, Config};
use crate::fake_secrets::{detected_s, is_detected, key_value_pairs, secret_key_pattern_s};
use crate::compare::entries_view;
use crate::display::TreeEntry;
use crate::edit::{ChangeSet, FileChange, Target};
use crate::model::FileKind;
use crate::parser::{pairs_view, parse, parse_kind_s, remove_key, remove_kind_s, set_kind_s, set_value, strings_view, ParsedPair};
use crate::regexp::{captures, groups_view, regex_captures, regex_valid};
use crate::text::{append, chars_of, eq_chars, string_of};

verus! {

/// One reported key: where it is and what it holds.
pub struct Finding {
    pub service: String,
    pub file_display: String,
    pub key: String,
    pub value: String,
}

/// The view of a finding: service, file, key, value.
pub open spec fn finding_view(f: Finding) -> (Seq<char>, Seq<char>, Seq<char>, Seq<char>) {
    (f.service@, f.file_display@, f.key@, f.value@)
}

/// The pattern of lines that assign a non-empty value to a key named like
/// a secret (`..._KEY`, `_PASSWORD`, `_SECRET`, `_TOKEN`, `_ID`, `_USERNAME`),
/// in dotenv (`export` allowed) or YAML syntax.
pub open spec fn leak_pattern_s() -> Seq<char> {
    "(?m)^\\s*(?:export\\s+)?([A-Za-z0-9_][A-Z0-9_]+_(?:KEY|PASSWORD|SECRET|TOKEN|ID|USERNAME))[^\\S\\n]*(?::\\s*(.+)|=[^\\S\\n]*(\\S.*))$"@
}

/// The leak pattern.
pub fn leak_pattern() -> (r: &'static str)
    ensures
        r@ == leak_pattern_s(),
{
    "(?m)^\\s*(?:export\\s+)?([A-Za-z0-9_][A-Z0-9_]+_(?:KEY|PASSWORD|SECRET|TOKEN|ID|USERNAME))[^\\S\\n]*(?::\\s*(.+)|=[^\\S\\n]*(\\S.*))$"
}

/// The pair a leak match gives: the key, and the dotenv value, else the
/// YAML value, as matched.
pub open spec fn leak_capture(g: (Option<Seq<char>>, Option<Seq<char>>, Option<Seq<char>>)) -> (Seq<char>, Seq<char>) {
    (
        match g.0 { Some(k) => k, None => seq![] },
        match g.2 {
            Some(v) => v,
            None => match g.1 { Some(v) => v, None => seq![] },
        },
    )
}

/// The key/value pairs of every line of `content` that the leak pattern
/// matches, in order.
pub fn leak_pairs(content: &str) -> (r: Vec<ParsedPair>)
    ensures
        regex_valid(leak_pattern_s()) ==> pairs_view(r@) == regex_captures(leak_pattern_s(), content@).map_values(
            |g: (Option<Seq<char>>, Option<Seq<char>>, Option<Seq<char>>)| leak_capture(g),
        ),
        !regex_valid(leak_pattern_s()) ==> r@.len() == 0,
{
    let caps = match captures(leak_pattern(), content) {
        Some(c) => c,
        None => {
            return Vec::new();
        },
    };
    let ghost gv = groups_view(caps@);
    let mut out: Vec<ParsedPair> = Vec::new();
    let mut i: usize = 0;
    while i < caps.len()
        invariant
            i <= caps.len(),
            gv == groups_view(caps@),
            pairs_view(out@) == gv.take(i as int).map_values(
                |g: (Option<Seq<char>>, Option<Seq<char>>, Option<Seq<char>>)| leak_capture(g),
            ),
        decreases caps.len() - i,
    {
        let c = &caps[i];
        let key = match &c.0 {
            Some(k) => k.clone(),
            None => String::new(),
        };
        let value = match &c.2 {
            Some(v) => v.clone(),
            None => match &c.1 {
                Some(v) => v.clone(),
                None => String::new(),
            },
        };
        let p = ParsedPair { key, value };
        let ghost before = out@;
        out.push(p);
        assert(pairs_view(out@) =~= pairs_view(before).push(p@));
        assert(gv.take(i + 1) =~= gv.take(i as int).push(gv[i as int]));
        assert(p@ == leak_capture(gv[i as int]));
        i = i + 1;
    }
    assert(gv.take(caps.len() as int) =~= gv);
    out
}

/// Whether the configuration marks `key` of `service` as a false alarm.
pub open spec fn alarm_s(cfg: Option<Config>, service: Seq<char>, key: Seq<char>) -> bool {
    cfg matches Some(c) && is_false_alarm_s(c, service, key)
}

/// Whether a configuration in use keeps its invariant.
pub open spec fn cfg_ok(cfg: Option<Config>) -> bool {
    cfg matches Some(c) ==> c.wf()
}

/// The finding of a pair of `service`'s file `display`.
pub open spec fn finding_of(service: Seq<char>, display: Seq<char>, p: (Seq<char>, Seq<char>)) -> (Seq<char>, Seq<char>, Seq<char>, Seq<char>) {
    (service, display, p.0, p.1)
}

/// Whether the configuration says `key` of `service` is a false alarm.
fn is_alarm(cfg: &Option<Config>, service: &str, key: &str) -> (r: bool)
    requires
        cfg_ok(*cfg),
    ensures
        r == alarm_s(*cfg, service@, key@),
{
    match cfg {
        Some(c) => c.is_false_alarm(service, key),
        None => false,
    }
}

/// The possible leaks of `service`'s file `display`: one finding per
/// matched pair, in order, except the false alarms.
pub fn leak_findings(service: &str, display: &str, pairs: &Vec<ParsedPair>, cfg: &Option<Config>) -> (r: Vec<Finding>)
    requires
        cfg_ok(*cfg),
    ensures
        r@.map_values(|f: Finding| finding_view(f)) == pairs_view(pairs@).filter(
            |p: (Seq<char>, Seq<char>)| !alarm_s(*cfg, service@, p.0),
        ).map_values(|p: (Seq<char>, Seq<char>)| finding_of(service@, display@, p)),
{
    let ghost pv = pairs_view(pairs@);
    let ghost keep = |p: (Seq<char>, Seq<char>)| !alarm_s(*cfg, service@, p.0);
    let mut out: Vec<Finding> = Vec::new();
    let mut i: usize = 0;
    while i < pairs.len()
        invariant
            i <= pairs.len(),
            cfg_ok(*cfg),
            pv == pairs_view(pairs@),
            keep == (|p: (Seq<char>, Seq<char>)| !alarm_s(*cfg, service@, p.0)),
            out@.map_values(|f: Finding| finding_view(f)) == pv.take(i as int).filter(keep).map_values(
                |p: (Seq<char>, Seq<char>)| finding_of(service@, display@, p),
            ),
        decreases pairs.len() - i,
    {
        let p = &pairs[i];
        proof {
            assert(pv.take(i + 1) =~= pv.take(i as int).push(pv[i as int]));
            pv.take(i as int).lemma_filter_push(pv[i as int], keep);
        }
        if !is_alarm(cfg, service, p.key.as_str()) {
            let f = Finding {
                service: string_of(&chars_of(service)),
                file_display: string_of(&chars_of(display)),
                key: p.key.clone(),
                value: p.value.clone(),
            };
            let ghost before = out@;
            out.push(f);
            assert(out@.map_values(|f: Finding| finding_view(f)) =~= before.map_values(|f: Finding| finding_view(f)).push(
                finding_view(f),
            ));
        }
        i = i + 1;
    }
    assert(pv.take(pairs.len() as int) =~= pv);
    out
}

/// The pairs the fake-secret check reads from a file: a secrets file is
/// parsed, any other file is matched with the key/value pattern.
pub fn scanned_pairs(kind: FileKind, content: &str) -> (r: Vec<ParsedPair>)
    ensures
        kind == FileKind::Secret ==> pairs_view(r@) == parse_kind_s(content@, kind),
        kind != FileKind::Secret && regex_valid(crate::fake_secrets::key_value_pattern_s()) ==> pairs_view(r@)
            == regex_captures(crate::fake_secrets::key_value_pattern_s(), content@).map_values(
            |g: (Option<Seq<char>>, Option<Seq<char>>, Option<Seq<char>>)| crate::fake_secrets::capture_pair(g),
        ),
{
    if kind == FileKind::Secret {
        parse(content, kind)
    } else {
        key_value_pairs(content)
    }
}

/// The fake secrets of `service`'s file `display` of `kind`: one finding
/// per detected pair, in order, except the false alarms.
pub fn fake_findings(
    service: &str,
    display: &str,
    kind: FileKind,
    pairs: &Vec<ParsedPair>,
    special: &Vec<String>,
    cfg: &Option<Config>,
) -> (r: Vec<Finding>)
    requires
        cfg_ok(*cfg),
    ensures
        regex_valid(secret_key_pattern_s()) ==> r@.map_values(|f: Finding| finding_view(f)) == pairs_view(pairs@).filter(
            |p: (Seq<char>, Seq<char>)| detected_s(kind, p.0, p.1, strings_view(special@)) && !alarm_s(*cfg, service@, p.0),
        ).map_values(|p: (Seq<char>, Seq<char>)| finding_of(service@, display@, p)),
{
    let ghost pv = pairs_view(pairs@);
    let ghost keep = |p: (Seq<char>, Seq<char>)| detected_s(kind, p.0, p.1, strings_view(special@)) && !alarm_s(*cfg, service@, p.0);
    let mut out: Vec<Finding> = Vec::new();
    let mut i: usize = 0;
    while i < pairs.len()
        invariant
            i <= pairs.len(),
            cfg_ok(*cfg),
            pv == pairs_view(pairs@),
            keep == (|p: (Seq<char>, Seq<char>)| detected_s(kind, p.0, p.1, strings_view(special@)) && !alarm_s(*cfg, service@, p.0)),
            regex_valid(secret_key_pattern_s()) ==> out@.map_values(|f: Finding| finding_view(f)) == pv.take(i as int).filter(keep).map_values(
                |p: (Seq<char>, Seq<char>)| finding_of(service@, display@, p),
            ),
        decreases pairs.len() - i,
    {
        let p = &pairs[i];
        proof {
            assert(pv.take(i + 1) =~= pv.take(i as int).push(pv[i as int]));
            pv.take(i as int).lemma_filter_push(pv[i as int], keep);
        }
        if is_detected(kind, p.key.as_str(), p.value.as_str(), special) && !is_alarm(cfg, service, p.key.as_str()) {
            let f = Finding {
                service: string_of(&chars_of(service)),
                file_display: string_of(&chars_of(display)),
                key: p.key.clone(),
                value: p.value.clone(),
            };
            let ghost before = out@;
            out.push(f);
            assert(out@.map_values(|f: Finding| finding_view(f)) =~= before.map_values(|f: Finding| finding_view(f)).push(
                finding_view(f),
            ));
        }
        i = i + 1;
    }
    assert(pv.take(pairs.len() as int) =~= pv);
    out
}

/// The label of a finding: `key = value`, colored by key and value when
/// `colored`, plain otherwise.
pub open spec fn finding_label_s(f: Finding, colors: ColorConfig, use_color: bool, colored: bool) -> Seq<char> {
    if colored {
        kv_label_s(f.key@, f.value@, colors.key, colors.value, use_color)
    } else {
        f.key@ + " = "@ + f.value@
    }
}

/// The tree entry of a finding.
pub open spec fn finding_entry_s(f: Finding, colors: ColorConfig, use_color: bool, colored: bool) -> (Seq<char>, Seq<char>, Seq<char>, crate::color::AnsiColor, bool) {
    (f.service@, f.file_display@, finding_label_s(f, colors, use_color, colored), colors.key, true)
}

/// One counted tree entry per finding, in the key color, under the
/// finding's service and file.
pub fn finding_entries(fs: &Vec<Finding>, colors: &ColorConfig, use_color: bool, colored: bool) -> (r: Vec<TreeEntry>)
    ensures
        entries_view(r@) == fs@.map_values(|f: Finding| finding_entry_s(f, *colors, use_color, colored)),
{
    let mut out: Vec<TreeEntry> = Vec::new();
    let mut i: usize = 0;
    while i < fs.len()
        invariant
            i <= fs.len(),
            entries_view(out@) == fs@.take(i as int).map_values(|f: Finding| finding_entry_s(f, *colors, use_color, colored)),
        decreases fs.len() - i,
    {
        let f = &fs[i];
        let label = if colored {
            colored_kv_label(f.key.as_str(), f.value.as_str(), colors.key, colors.value, use_color)
        } else {
            let mut l = chars_of(f.key.as_str());
            append(&mut l, chars_of(" = ").as_slice());
            append(&mut l, chars_of(f.value.as_str()).as_slice());
            string_of(&l)
        };
        let e = TreeEntry {
            service: f.service.clone(),
            file: f.file_display.clone(),
            label,
            color: colors.key,
            counted: true,
        };
        let ghost before = out@;
        out.push(e);
        proof {
            assert(entries_view(out@) =~= entries_view(before).push((e.service@, e.file@, e.label@, e.color, e.counted)));
            assert(fs@.take(i + 1) =~= fs@.take(i as int).push(fs@[i as int]));
        }
        i = i + 1;
    }
    assert(fs@.take(fs.len() as int) =~= fs@);
    out
}

/// The (service, key) pairs of the findings of `key`, in order.
pub open spec fn alarm_pairs_s(fs: Seq<Finding>, key: Seq<char>) -> Seq<(Seq<char>, Seq<char>)> {
    fs.filter(|f: Finding| f.key@ == key).map_values(|f: Finding| (f.service@, f.key@))
}

/// The (service, key) pairs to mark as false alarms for `key`: one per
/// finding of that key.
pub fn false_alarm_pairs(fs: &Vec<Finding>, key: &str) -> (r: Vec<(String, String)>)
    ensures
        r@.map_values(|p: (String, String)| (p.0@, p.1@)) == alarm_pairs_s(fs@, key@),
{
    let k = chars_of(key);
    let mut out: Vec<(String, String)> = Vec::new();
    let mut i: usize = 0;
    while i < fs.len()
        invariant
            i <= fs.len(),
            k@ == key@,
            out@.map_values(|p: (String, String)| (p.0@, p.1@)) == alarm_pairs_s(fs@.take(i as int), key@),
        decreases fs.len() - i,
    {
        let f = &fs[i];
        proof {
            assert(fs@.take(i + 1) =~= fs@.take(i as int).push(fs@[i as int]));
            fs@.take(i as int).lemma_filter_push(fs@[i as int], |f: Finding| f.key@ == key@);
        }
        if eq_chars(&chars_of(f.key.as_str()), &k) {
            let p = (f.service.clone(), f.key.clone());
            let ghost before = out@;
            out.push(p);
            assert(out@.map_values(|p: (String, String)| (p.0@, p.1@)) =~= before.map_values(
                |p: (String, String)| (p.0@, p.1@),
            ).push((p.0@, p.1@)));
        }
        i = i + 1;
    }
    assert(fs@.take(fs.len() as int) =~= fs@);
    out
}

/// One key cleaned out of a file: removed when `remove` is set or the file
/// is a configmap, emptied otherwise.
pub open spec fn clean_key_s(content: Seq<char>, kind: FileKind, key: Seq<char>, remove: bool) -> Seq<char> {
    if remove || kind == FileKind::ConfigMap {
        remove_kind_s(content, kind, key)
    } else {
        set_kind_s(content, kind, key, seq![])
    }
}

/// The content after cleaning each key in turn.
pub open spec fn clean_all_s(content: Seq<char>, kind: FileKind, keys: Seq<Seq<char>>, remove: bool) -> Seq<char>
    decreases keys.len(),
{
    if keys.len() == 0 {
        content
    } else {
        clean_key_s(clean_all_s(content, kind, keys.drop_last(), remove), kind, keys.last(), remove)
    }
}

/// The keys found in one file of one service, in order.
pub open spec fn file_keys_s(fs: Seq<Finding>, service: Seq<char>, display: Seq<char>) -> Seq<Seq<char>> {
    fs.filter(|f: Finding| f.service@ == service && f.file_display@ == display).map_values(|f: Finding| f.key@)
}

/// The keys of the findings in `service`'s file `display`.
fn file_keys(fs: &Vec<Finding>, service: &str, display: &str) -> (r: Vec<String>)
    ensures
        crate::parser::strings_view(r@) == file_keys_s(fs@, service@, display@),
{
    let s = chars_of(service);
    let d = chars_of(display);
    let ghost p = |f: Finding| f.service@ == service@ && f.file_display@ == display@;
    let mut out: Vec<String> = Vec::new();
    let mut i: usize = 0;
    while i < fs.len()
        invariant
            i <= fs.len(),
            s@ == service@,
            d@ == display@,
            p == (|f: Finding| f.service@ == service@ && f.file_display@ == display@),
            crate::parser::strings_view(out@) == file_keys_s(fs@.take(i as int), service@, display@),
        decreases fs.len() - i,
    {
        let f = &fs[i];
        proof {
            assert(fs@.take(i + 1) =~= fs@.take(i as int).push(fs@[i as int]));
            fs@.take(i as int).lemma_filter_push(fs@[i as int], p);
        }
        if eq_chars(&chars_of(f.service.as_str()), &s) && eq_chars(&chars_of(f.file_display.as_str()), &d) {
            let ghost before = out@;
            out.push(f.key.clone());
            assert(crate::parser::strings_view(out@) =~= crate::parser::strings_view(before).push(f.key@));
        }
        i = i + 1;
    }
    assert(fs@.take(fs.len() as int) =~= fs@);
    out
}

/// The content of a file of `kind` after cleaning every key, in turn.
pub fn clean_content(content: &str, kind: FileKind, keys: &Vec<String>, remove: bool) -> (r: String)
    ensures
        r@ == clean_all_s(content@, kind, crate::parser::strings_view(keys@), remove),
{
    let ghost kv = crate::parser::strings_view(keys@);
    let mut cur = string_of(&chars_of(content));
    let mut i: usize = 0;
    while i < keys.len()
        invariant
            i <= keys.len(),
            kv == crate::parser::strings_view(keys@),
            cur@ == clean_all_s(content@, kind, kv.take(i as int), remove),
        decreases keys.len() - i,
    {
        cur = if remove || kind == FileKind::ConfigMap {
            remove_key(cur.as_str(), kind, keys[i].as_str())
        } else {
            set_value(cur.as_str(), kind, keys[i].as_str(), "")
        };
        proof {
            reveal_strlit("");
            assert(kv.take(i + 1).drop_last() =~= kv.take(i as int));
        }
        i = i + 1;
    }
    assert(kv.take(keys.len() as int) =~= kv);
    cur
}

/// What a clean edit of target `i` holds: the target's file, its current
/// content, and that content with the target's found keys cleaned.
pub open spec fn clean_edit_of(c: FileChange, t: Target, content: Seq<char>, fs: Seq<Finding>, remove: bool) -> bool {
    &&& c.service@ == t.service@
    &&& c.display@ == t.file.display@
    &&& c.path == t.file.path
    &&& c.kind == t.file.kind
    &&& c.key@.len() == 0
    &&& c.value@.len() == 0
    &&& c.old_content@ == content
    &&& c.new_content@ == clean_all_s(content, t.file.kind, file_keys_s(fs, t.service@, t.file.display@), remove)
}

/// Whether cleaning target `i` changes its content.
pub open spec fn clean_changes_target(targets: Seq<Target>, olds: Seq<String>, fs: Seq<Finding>, remove: bool, i: int) -> bool {
    clean_all_s(olds[i]@, targets[i].file.kind, file_keys_s(fs, targets[i].service@, targets[i].file.display@), remove) != olds[i]@
}

/// The indices, in order, of the first `n` targets whose content cleaning
/// changes.
pub open spec fn cleaned_targets(targets: Seq<Target>, olds: Seq<String>, fs: Seq<Finding>, remove: bool, n: int) -> Seq<int>
    decreases n,
{
    if n <= 0 {
        seq![]
    } else {
        let prev = cleaned_targets(targets, olds, fs, remove, n - 1);
        if clean_changes_target(targets, olds, fs, remove, n - 1) {
            prev.push(n - 1)
        } else {
            prev
        }
    }
}

/// A clean edit of one of the targets.
pub open spec fn clean_edit_from(c: FileChange, targets: Seq<Target>, olds: Seq<String>, fs: Seq<Finding>, remove: bool) -> bool {
    exists|q: int| 0 <= q < targets.len() && #[trigger] clean_edit_of(c, targets[q], olds[q]@, fs, remove)
}

/// The edits that clean the findings out of each target (target `i`
/// currently holding `old_contents[i]`), in target order, keeping only the
/// targets whose content changes. With `remove` every found key is removed;
/// otherwise configmap keys are removed and other files' keys emptied.
pub fn clean_changes(targets: &Vec<Target>, fs: &Vec<Finding>, old_contents: &Vec<String>, remove: bool) -> (r: ChangeSet)
    requires
        old_contents@.len() == targets@.len(),
    ensures
        forall|k: int| 0 <= k < r.changes@.len() ==> (#[trigger] r.changes@[k]).new_content@ != r.changes@[k].old_content@,
        forall|k: int| 0 <= k < r.changes@.len() ==> clean_edit_from(#[trigger] r.changes@[k], targets@, old_contents@, fs@, remove),
        forall|i: int| 0 <= i < targets@.len() && clean_all_s(old_contents@[i]@, targets@[i].file.kind, file_keys_s(fs@, targets@[i].service@, targets@[i].file.display@), remove) != old_contents@[i]@
            ==> exists|k: int| 0 <= k < r.changes@.len() && clean_edit_of(#[trigger] r.changes@[k], targets@[i], old_contents@[i]@, fs@, remove),
        ({
            let ix = cleaned_targets(targets@, old_contents@, fs@, remove, targets@.len() as int);
            &&& r.changes@.len() == ix.len()
            &&& forall|k: int| 0 <= k < ix.len() ==> clean_edit_of(#[trigger] r.changes@[k], targets@[ix[k]], old_contents@[ix[k]]@, fs@, remove)
        }),
{
    let mut changes: Vec<FileChange> = Vec::new();
    let mut i: usize = 0;
    while i < targets.len()
        invariant
            i <= targets.len(),
            old_contents@.len() == targets@.len(),
            forall|k: int| 0 <= k < changes@.len() ==> (#[trigger] changes@[k]).new_content@ != changes@[k].old_content@,
            forall|k: int| 0 <= k < changes@.len() ==> clean_edit_from(#[trigger] changes@[k], targets@, old_contents@, fs@, remove),
            forall|q: int| 0 <= q < i && clean_all_s(old_contents@[q]@, targets@[q].file.kind, file_keys_s(fs@, targets@[q].service@, targets@[q].file.display@), remove) != old_contents@[q]@
                ==> exists|k: int| 0 <= k < changes@.len() && clean_edit_of(#[trigger] changes@[k], targets@[q], old_contents@[q]@, fs@, remove),
            changes@.len() == cleaned_targets(targets@, old_contents@, fs@, remove, i as int).len(),
            forall|k: int| 0 <= k < changes@.len() ==> {
                let ix = cleaned_targets(targets@, old_contents@, fs@, remove, i as int);
                clean_edit_of(#[trigger] changes@[k], targets@[ix[k]], old_contents@[ix[k]]@, fs@, remove)
            },
        decreases targets.len() - i,
    {
        let t = &targets[i];
        let old = &old_contents[i];
        let keys = file_keys(fs, t.service.as_str(), t.file.display.as_str());
        let new_content = clean_content(old.as_str(), t.file.kind, &keys, remove);
        if !eq_chars(&chars_of(new_content.as_str()), &chars_of(old.as_str())) {
            let c = FileChange {
                service: t.service.clone(),
                display: t.file.display.clone(),
                path: t.file.path.clone(),
                kind: t.file.kind,
                key: String::new(),
                value: String::new(),
                old_content: old.clone(),
                new_content,
            };
            let ghost cv = c;
            assert(clean_edit_of(cv, targets@[i as int], old_contents@[i as int]@, fs@, remove));
            assert(clean_edit_from(cv, targets@, old_contents@, fs@, remove));
            let ghost before = changes@;
            changes.push(c);
            assert(changes@[changes@.len() - 1] == cv);
            assert(forall|k: int| 0 <= k < before.len() ==> changes@[k] == before[k]);
        }
        i = i + 1;
    }
    ChangeSet { changes }
}

} // verus!
