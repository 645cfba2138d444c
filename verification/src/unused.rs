//! Pieces of the unused-keys check: whole-word matching and the directory
//! and file skip lists.

use vstd::prelude::*;

use vstd::string::StringSliceAdditionalSpecFns;
use vstd::utf8::encode_utf8;

use aho_corasick::{AhoCorasick, MatchKind};

use crate::color::ColorConfig;
use crate::compare::entries_view;
use crate::context::insert_string;
use crate::display::TreeEntry;
use crate::findings::{finding_view, Finding};
use crate::model::EnvFile;
use crate::parser::{pairs_view, strings_view, ParsedPair};
use crate::text::{chars_of, eq_chars, string_of};

verus! {

/// A byte that can be part of a key: ASCII letter, digit or `_`.
pub open spec fn word_byte(b: u8) -> bool {
    (48 <= b <= 57) || (65 <= b <= 90) || (97 <= b <= 122) || b == 95
}

fn is_word_byte(b: u8) -> (r: bool)
    ensures
        r == word_byte(b),
{
    (48 <= b && b <= 57) || (65 <= b && b <= 90) || (97 <= b && b <= 122) || b == 95
}

/// Whether the match at bytes `start..end` of `line` is a whole-word
/// occurrence: neither neighbouring byte is a letter, digit or `_` (the
/// line's ends count as boundaries).
pub fn is_word_boundary(line: &str, start: usize, end: usize) -> (r: bool)
    requires
        start <= line.spec_bytes().len(),
    ensures
        r == ((start == 0 || !word_byte(line.spec_bytes()[start - 1])) && (end >= line.spec_bytes().len()
            || !word_byte(line.spec_bytes()[end as int]))),
{
    let bytes = line.as_bytes();
    let before_ok = start == 0 || !is_word_byte(bytes[start - 1]);
    let after_ok = end >= bytes.len() || !is_word_byte(bytes[end]);
    before_ok && after_ok
}

/// The directories always skipped when searching for key usage.
pub open spec fn default_skip_dirs() -> Set<Seq<char>> {
    set![".git"@, "target"@, "vendor"@, "node_modules"@, "logs"@]
}

/// The directories to skip: the defaults plus the configured ones, each
/// once.
pub fn build_skip_dirs(config_skip_dirs: &Vec<String>) -> (r: Vec<String>)
    ensures
        strings_view(r@).no_duplicates(),
        strings_view(r@).to_set() == default_skip_dirs().union(strings_view(config_skip_dirs@).to_set()),
{
    let mut skip: Vec<String> = Vec::new();
    insert_string(&mut skip, ".git");
    insert_string(&mut skip, "target");
    insert_string(&mut skip, "vendor");
    insert_string(&mut skip, "node_modules");
    insert_string(&mut skip, "logs");
    assert(strings_view(skip@).to_set() =~= default_skip_dirs());
    add_all(&mut skip, config_skip_dirs);
    skip
}

/// The files to skip: the configured ones, each once (there are no
/// built-in ones).
pub fn build_skip_files(config_skip_files: &Vec<String>) -> (r: Vec<String>)
    ensures
        strings_view(r@).no_duplicates(),
        strings_view(r@).to_set() == strings_view(config_skip_files@).to_set(),
{
    let mut skip: Vec<String> = Vec::new();
    add_all(&mut skip, config_skip_files);
    assert(strings_view(skip@).to_set() =~= Set::<Seq<char>>::empty().union(strings_view(config_skip_files@).to_set()));
    skip
}

fn add_all(skip: &mut Vec<String>, more: &Vec<String>)
    requires
        strings_view(old(skip)@).no_duplicates(),
    ensures
        strings_view(final(skip)@).no_duplicates(),
        strings_view(final(skip)@).to_set() == strings_view(old(skip)@).to_set().union(strings_view(more@).to_set()),
{
    let ghost base = strings_view(skip@).to_set();
    let ghost mv = strings_view(more@);
    let mut i: usize = 0;
    assert(base =~= base.union(mv.take(0).to_set()));
    while i < more.len()
        invariant
            i <= more.len(),
            mv == strings_view(more@),
            strings_view(skip@).no_duplicates(),
            strings_view(skip@).to_set() == base.union(mv.take(i as int).to_set()),
        decreases more.len() - i,
    {
        insert_string(skip, more[i].as_str());
        proof {
            assert(mv.take(i + 1) =~= mv.take(i as int).push(mv[i as int]));
            mv.take(i as int).lemma_push_to_set_commute(mv[i as int]);
            assert(strings_view(skip@).to_set() =~= base.union(mv.take(i + 1).to_set()));
        }
        i = i + 1;
    }
    assert(mv.take(more.len() as int) =~= mv);
}

/// Aho-Corasick automata are carried through unchanged.
#[verifier::external_type_specification]
#[verifier::external_body]
pub struct ExAhoCorasick(AhoCorasick);

/// A leftmost-longest multi-key finder, built once for a list of keys.
pub struct KeyMatcher {
    keys: Vec<String>,
    ac: AhoCorasick,
}

impl View for KeyMatcher {
    type V = Seq<Seq<char>>;

    /// The keys it finds, by index.
    closed spec fn view(&self) -> Seq<Seq<char>> {
        strings_view(self.keys@)
    }
}

/// The `(key index, start byte, end byte)` matches that the leftmost-longest
/// automaton of `keys` reports in `line`, in order.
pub uninterp spec fn ac_find(keys: Seq<Seq<char>>, line: Seq<char>) -> Seq<(usize, usize, usize)>;

/// A reported match names a key and spans exactly its bytes in the line.
pub open spec fn match_ok(keys: Seq<Seq<char>>, line: Seq<u8>, m: (usize, usize, usize)) -> bool {
    &&& m.0 < keys.len()
    &&& m.1 <= m.2 <= line.len()
    &&& line.subrange(m.1 as int, m.2 as int) == encode_utf8(keys[m.0 as int])
}

/// Every match of a list is well formed.
pub open spec fn matches_ok(keys: Seq<Seq<char>>, line: Seq<u8>, ms: Seq<(usize, usize, usize)>) -> bool {
    forall|j: int| 0 <= j < ms.len() ==> match_ok(keys, line, #[trigger] ms[j])
}

/// The UTF-8 bytes of all the keys together.
pub open spec fn keys_bytes(keys: Seq<Seq<char>>) -> int
    decreases keys.len(),
{
    if keys.len() == 0 {
        0
    } else {
        keys_bytes(keys.drop_last()) + encode_utf8(keys.last()).len()
    }
}

/// Whether a key list is small enough that the automaton is always built:
/// at most ten thousand keys of at most ten thousand bytes together.
pub open spec fn small_key_set(keys: Seq<Seq<char>>) -> bool {
    keys.len() <= 10000 && keys_bytes(keys) <= 10000
}

/// Builds `aho_corasick::AhoCorasick` for `keys` with
/// `MatchKind::LeftmostLongest`. Trusted: the matcher finds exactly these
/// keys, by index; `None` only when the builder refuses the keys. The
/// builder refuses only when a state, transition or match table of its
/// noncontiguous automaton outgrows `i32::MAX - 1` entries, which a small
/// key set cannot reach (at most one state per key byte plus four, 256
/// transitions and one match per key for each state), so it is then built.
#[verifier::external_body]
fn build_matcher(keys: &Vec<String>) -> (r: Option<KeyMatcher>)
    ensures
        r matches Some(m) ==> m@ == strings_view(keys@),
        small_key_set(strings_view(keys@)) ==> r is Some,
{
    AhoCorasick::builder().match_kind(MatchKind::LeftmostLongest).build(keys.iter()).ok().map(
        |ac| KeyMatcher { keys: keys.clone(), ac },
    )
}

/// `AhoCorasick::find_iter` over `line`, each match as its pattern index and
/// byte span. Trusted: the crate's matches for these keys and this line, in
/// order; as its documentation states, each spans exactly its key's bytes.
#[verifier::external_body]
fn find_keys(m: &KeyMatcher, line: &str) -> (r: Vec<(usize, usize, usize)>)
    ensures
        r@ == ac_find(m@, line@),
        matches_ok(m@, line.spec_bytes(), r@),
{
    m.ac.find_iter(line).map(|x| (x.pattern().as_usize(), x.start(), x.end())).collect()
}

impl KeyMatcher {
    /// A finder for `keys`; `None` when the automaton cannot be built,
    /// which never happens for a small key set.
    pub fn new(keys: &Vec<String>) -> (r: Option<KeyMatcher>)
        ensures
            r matches Some(m) ==> m@ == strings_view(keys@),
            small_key_set(strings_view(keys@)) ==> r is Some,
    {
        build_matcher(keys)
    }

    /// How many keys it finds.
    pub fn len(&self) -> (n: usize)
        ensures
            n == self@.len(),
    {
        self.keys.len()
    }
}

/// Whether the bytes `start..end` of a line are a whole word.
pub open spec fn boundary_s(line: Seq<u8>, start: int, end: int) -> bool {
    (start == 0 || !word_byte(line[start - 1])) && (end >= line.len() || !word_byte(line[end]))
}

/// A match is a whole word exactly when the byte before it (if any) and the
/// byte after it (if any) are each neither an ASCII digit, nor an ASCII
/// letter, nor `_`: a key followed or preceded by a digit is part of a
/// longer name.
pub proof fn law_whole_word_neighbours(line: Seq<u8>, start: int, end: int)
    requires
        0 <= start <= line.len(),
        0 <= end,
    ensures
        start > 0 && 48 <= line[start - 1] <= 57 ==> !boundary_s(line, start, end),
        end < line.len() && 48 <= line[end] <= 57 ==> !boundary_s(line, start, end),
        boundary_s(line, start, end) <==> (start == 0 || !((48 <= line[start - 1] <= 57) || (65 <= line[start
            - 1] <= 90) || (97 <= line[start - 1] <= 122) || line[start - 1] == 95)) && (end >= line.len() || !((48
            <= line[end] <= 57) || (65 <= line[end] <= 90) || (97 <= line[end] <= 122) || line[end] == 95)),
{
}

/// Whether key `i` has a whole-word match among the matches.
pub open spec fn found_in(ms: Seq<(usize, usize, usize)>, line: Seq<u8>, i: int) -> bool {
    exists|j: int| 0 <= j < ms.len() && (#[trigger] ms[j]).0 == i && boundary_s(line, ms[j].1 as int, ms[j].2 as int)
}

/// Whether key `i` occurs in the line as a whole word.
pub open spec fn occurs_as_word(key: Seq<char>, line: Seq<u8>) -> bool {
    exists|s: int, e: int| 0 <= s <= e <= line.len() && #[trigger] line.subrange(s, e) == encode_utf8(key) && boundary_s(line, s, e)
}

/// Mark as found (clear) every key still remaining that the finder matches
/// as a whole word in `line`. A key is only ever cleared when it occurs in
/// the line as a whole word.
pub fn scan_line(m: &KeyMatcher, line: &str, remaining: &mut Vec<bool>)
    requires
        old(remaining)@.len() == m@.len(),
    ensures
        final(remaining)@.len() == old(remaining)@.len(),
        forall|i: int| 0 <= i < final(remaining)@.len() ==> (#[trigger] final(remaining)@[i]) == (old(remaining)@[i] && !found_in(ac_find(m@, line@), line.spec_bytes(), i)),
        forall|i: int| 0 <= i < final(remaining)@.len() && old(remaining)@[i] && !(#[trigger] final(remaining)@[i]) ==> occurs_as_word(m@[i], line.spec_bytes()),
{
    let ms = find_keys(m, line);
    let ghost bytes = line.spec_bytes();
    let ghost start = remaining@;
    let mut j: usize = 0;
    while j < ms.len()
        invariant
            j <= ms.len(),
            ms@ == ac_find(m@, line@),
            matches_ok(m@, bytes, ms@),
            bytes == line.spec_bytes(),
            remaining@.len() == start.len(),
            start.len() == m@.len(),
            forall|i: int| 0 <= i < remaining@.len() ==> (#[trigger] remaining@[i]) == (start[i] && !found_in(ms@.take(j as int), bytes, i)),
        decreases ms.len() - j,
    {
        let (p, a, b) = ms[j];
        proof {
            assert(match_ok(m@, bytes, ms@[j as int]));
        }
        let hit = is_word_boundary(line, a, b);
        if hit && remaining[p] {
            remaining.set(p, false);
        }
        proof {
            assert forall|i: int| 0 <= i < remaining@.len() implies (#[trigger] remaining@[i]) == (start[i] && !found_in(ms@.take(j + 1), bytes, i)) by {
                let t = ms@.take(j + 1);
                assert(t[j as int] == ms@[j as int]);
                if found_in(ms@.take(j as int), bytes, i) {
                    let w = choose|w: int| 0 <= w < ms@.take(j as int).len() && (#[trigger] ms@.take(j as int)[w]).0 == i && boundary_s(bytes, ms@.take(j as int)[w].1 as int, ms@.take(j as int)[w].2 as int);
                    assert(t[w] == ms@.take(j as int)[w]);
                }
                if found_in(t, bytes, i) {
                    let w = choose|w: int| 0 <= w < t.len() && (#[trigger] t[w]).0 == i && boundary_s(bytes, t[w].1 as int, t[w].2 as int);
                    if w < j {
                        assert(ms@.take(j as int)[w] == t[w]);
                    }
                }
            }
        }
        j = j + 1;
    }
    proof {
        assert(ms@.take(ms@.len() as int) =~= ms@);
        assert forall|i: int| 0 <= i < remaining@.len() && start[i] && !(#[trigger] remaining@[i]) implies occurs_as_word(m@[i], bytes) by {
            let w = choose|w: int| 0 <= w < ms@.len() && (#[trigger] ms@[w]).0 == i && boundary_s(bytes, ms@[w].1 as int, ms@[w].2 as int);
            assert(match_ok(m@, bytes, ms@[w]));
            let s0 = ms@[w].1 as int;
            let e0 = ms@[w].2 as int;
            assert(bytes.subrange(s0, e0) == encode_utf8(m@[i]));
        }
    }
}

/// Run `scan_line` over each line in turn: a key stays remaining only if
/// no line matches it as a whole word.
pub fn scan_lines(m: &KeyMatcher, lines: &Vec<String>, remaining: &mut Vec<bool>)
    requires
        old(remaining)@.len() == m@.len(),
    ensures
        final(remaining)@.len() == old(remaining)@.len(),
        forall|i: int| 0 <= i < final(remaining)@.len() ==> (#[trigger] final(remaining)@[i]) == (old(remaining)@[i]
            && forall|l: int| 0 <= l < lines@.len() ==> !found_in(ac_find(m@, lines@[l]@), encode_utf8((#[trigger] lines@[l])@), i)),
{
    let ghost start = remaining@;
    let mut l: usize = 0;
    while l < lines.len()
        invariant
            l <= lines.len(),
            remaining@.len() == start.len(),
            start.len() == m@.len(),
            forall|i: int| 0 <= i < remaining@.len() ==> (#[trigger] remaining@[i]) == (start[i]
                && forall|q: int| 0 <= q < l ==> !found_in(ac_find(m@, lines@[q]@), encode_utf8((#[trigger] lines@[q])@), i)),
        decreases lines.len() - l,
    {
        let ghost before = remaining@;
        scan_line(m, lines[l].as_str(), remaining);
        proof {
            assert forall|i: int| 0 <= i < remaining@.len() implies (#[trigger] remaining@[i]) == (start[i]
                && forall|q: int| 0 <= q < l + 1 ==> !found_in(ac_find(m@, lines@[q]@), encode_utf8((#[trigger] lines@[q])@), i)) by {
                assert(before[i] == (start[i] && forall|q: int| 0 <= q < l ==> !found_in(ac_find(m@, lines@[q]@), encode_utf8((#[trigger] lines@[q])@), i)));
            }
        }
        l = l + 1;
    }
}

/// The keys with a non-empty value read from one file of `service`, as
/// findings to check.
pub fn checked_keys(service: &str, file: &EnvFile, pairs: &Vec<ParsedPair>) -> (r: Vec<Finding>)
    ensures
        r@.map_values(|f: Finding| finding_view(f)) == pairs_view(pairs@).filter(
            |p: (Seq<char>, Seq<char>)| p.1.len() > 0,
        ).map_values(|p: (Seq<char>, Seq<char>)| (service@, file.display@, p.0, p.1)),
{
    let ghost pv = pairs_view(pairs@);
    let ghost keep = |p: (Seq<char>, Seq<char>)| p.1.len() > 0;
    let mut out: Vec<Finding> = Vec::new();
    let mut i: usize = 0;
    while i < pairs.len()
        invariant
            i <= pairs.len(),
            pv == pairs_view(pairs@),
            keep == (|p: (Seq<char>, Seq<char>)| p.1.len() > 0),
            out@.map_values(|f: Finding| finding_view(f)) == pv.take(i as int).filter(keep).map_values(
                |p: (Seq<char>, Seq<char>)| (service@, file.display@, p.0, p.1),
            ),
        decreases pairs.len() - i,
    {
        proof {
            assert(pv.take(i + 1) =~= pv.take(i as int).push(pv[i as int]));
            pv.take(i as int).lemma_filter_push(pv[i as int], keep);
        }
        if chars_of(pairs[i].value.as_str()).len() > 0 {
            let f = Finding {
                service: string_of(&chars_of(service)),
                file_display: file.display.clone(),
                key: pairs[i].key.clone(),
                value: pairs[i].value.clone(),
            };
            let ghost before = out@;
            out.push(f);
            assert(out@.map_values(|f: Finding| finding_view(f)) =~= before.map_values(|f: Finding| finding_view(f)).push(
                finding_view(f),
            ));
        }
        i = i + 1;
    }
    assert(pv.take(pairs.len() as int) =~= pv);
    out
}

/// The distinct keys of the findings, in order of first occurrence.
pub fn distinct_keys_of(fs: &Vec<Finding>) -> (r: Vec<String>)
    ensures
        strings_view(r@).no_duplicates(),
        strings_view(r@).to_set() == fs@.map_values(|f: Finding| f.key@).to_set(),
{
    let ghost kv = fs@.map_values(|f: Finding| f.key@);
    let mut out: Vec<String> = Vec::new();
    let mut i: usize = 0;
    assert(strings_view(out@).to_set() =~= kv.take(0).to_set());
    while i < fs.len()
        invariant
            i <= fs.len(),
            kv == fs@.map_values(|f: Finding| f.key@),
            strings_view(out@).no_duplicates(),
            strings_view(out@).to_set() == kv.take(i as int).to_set(),
        decreases fs.len() - i,
    {
        proof {
            assert(kv.take(i + 1) =~= kv.take(i as int).push(kv[i as int]));
            kv.take(i as int).lemma_push_to_set_commute(kv[i as int]);
        }
        if !crate::context::has_string(&out, fs[i].key.as_str()) {
            let ghost before = strings_view(out@);
            out.push(fs[i].key.clone());
            proof {
                assert(strings_view(out@) =~= before.push(kv[i as int]));
                before.lemma_push_to_set_commute(kv[i as int]);
                assert forall|a: int, b: int| 0 <= a < b < strings_view(out@).len() implies strings_view(out@)[a] != strings_view(out@)[b] by {
                    if b == before.len() {
                        assert(before.contains(before[a]));
                    }
                }
            }
        } else {
            proof {
                assert(strings_view(out@).to_set().insert(kv[i as int]) =~= strings_view(out@).to_set());
            }
        }
        i = i + 1;
    }
    assert(kv.take(fs.len() as int) =~= kv);
    out
}

/// The first position at or after `j` where `keys` holds `key` (-1 when
/// there is none).
pub open spec fn first_pos(keys: Seq<Seq<char>>, key: Seq<char>, j: int) -> int
    decreases keys.len() - j,
{
    if j < 0 || j >= keys.len() {
        -1
    } else if keys[j] == key {
        j
    } else {
        first_pos(keys, key, j + 1)
    }
}

/// Whether a finding is still unused: its key was never found (or was not
/// checked at all).
pub open spec fn still_unused(keys: Seq<Seq<char>>, remaining: Seq<bool>, key: Seq<char>) -> bool {
    let p = first_pos(keys, key, 0);
    p < 0 || remaining[p]
}

proof fn lemma_first_pos_range(keys: Seq<Seq<char>>, key: Seq<char>, j: int)
    requires
        0 <= j,
    ensures
        first_pos(keys, key, j) == -1 || j <= first_pos(keys, key, j) < keys.len(),
    decreases keys.len() - j,
{
    if j < keys.len() && keys[j] != key {
        lemma_first_pos_range(keys, key, j + 1);
    }
}

/// The findings whose key is still unused after the scan, in order.
pub fn unused_findings(fs: &Vec<Finding>, keys: &Vec<String>, remaining: &Vec<bool>) -> (r: Vec<Finding>)
    requires
        remaining@.len() == keys@.len(),
    ensures
        r@.map_values(|f: Finding| finding_view(f)) == fs@.filter(
            |f: Finding| still_unused(strings_view(keys@), remaining@, f.key@),
        ).map_values(|f: Finding| finding_view(f)),
{
    let ghost kv = strings_view(keys@);
    let ghost keep = |f: Finding| still_unused(kv, remaining@, f.key@);
    let mut out: Vec<Finding> = Vec::new();
    let mut i: usize = 0;
    while i < fs.len()
        invariant
            i <= fs.len(),
            kv == strings_view(keys@),
            remaining@.len() == keys@.len(),
            keep == (|f: Finding| still_unused(kv, remaining@, f.key@)),
            out@.map_values(|f: Finding| finding_view(f)) == fs@.take(i as int).filter(keep).map_values(|f: Finding| finding_view(f)),
        decreases fs.len() - i,
    {
        proof {
            assert(fs@.take(i + 1) =~= fs@.take(i as int).push(fs@[i as int]));
            fs@.take(i as int).lemma_filter_push(fs@[i as int], keep);
        }
        let k = chars_of(fs[i].key.as_str());
        let mut p: usize = 0;
        while p < keys.len() && !eq_chars(&chars_of(keys[p].as_str()), &k)
            invariant
                p <= keys.len(),
                kv == strings_view(keys@),
                k@ == fs@[i as int].key@,
                first_pos(kv, k@, 0) == first_pos(kv, k@, p as int),
            decreases keys.len() - p,
        {
            p = p + 1;
        }
        proof {
            if p < keys.len() {
                assert(kv[p as int] == k@);
            }
            lemma_first_pos_range(kv, k@, 0);
        }
        let keep_it = if p < keys.len() { remaining[p] } else { true };
        if keep_it {
            let f = Finding {
                service: fs[i].service.clone(),
                file_display: fs[i].file_display.clone(),
                key: fs[i].key.clone(),
                value: fs[i].value.clone(),
            };
            let ghost before = out@;
            out.push(f);
            assert(out@.map_values(|f: Finding| finding_view(f)) =~= before.map_values(|f: Finding| finding_view(f)).push(
                finding_view(fs@[i as int]),
            ));
        }
        i = i + 1;
    }
    assert(fs@.take(fs.len() as int) =~= fs@);
    out
}

/// One counted tree entry per unused key: its name, in the key color,
/// under its service and file.
pub fn unused_entries(fs: &Vec<Finding>, colors: &ColorConfig) -> (r: Vec<TreeEntry>)
    ensures
        entries_view(r@) == fs@.map_values(|f: Finding| (f.service@, f.file_display@, f.key@, colors.key, true)),
{
    let mut out: Vec<TreeEntry> = Vec::new();
    let mut i: usize = 0;
    while i < fs.len()
        invariant
            i <= fs.len(),
            entries_view(out@) == fs@.take(i as int).map_values(|f: Finding| (f.service@, f.file_display@, f.key@, colors.key, true)),
        decreases fs.len() - i,
    {
        let e = TreeEntry {
            service: fs[i].service.clone(),
            file: fs[i].file_display.clone(),
            label: fs[i].key.clone(),
            color: colors.key,
            counted: true,
        };
        let ghost before = out@;
        out.push(e);
        proof {
            assert(entries_view(out@) =~= entries_view(before).push((e.service@, e.file@, e.label@, e.color, e.counted)));
            assert(fs@.take(i + 1) =~= fs@.take(i as int).push(fs@[i as int]));
        }
        i = i + 1;
    }
    assert(fs@.take(fs.len() as int) =~= fs@);
    out
}

/// File names that are text whatever their extension (lowercase).
pub open spec fn special_text_names() -> Seq<Seq<char>> {
    seq!["dockerfile"@, "containerfile"@, "makefile"@, "gnumakefile"@, "cmakelists.txt"@, "rakefile"@, "gemfile"@, "procfile"@, "vagrantfile"@, "jenkinsfile"@, "brewfile"@]
}

/// Extensions of text files (lowercase).
pub open spec fn text_extensions() -> Seq<Seq<char>> {
    seq!["rs"@, "go"@, "py"@, "js"@, "ts"@, "tsx"@, "jsx"@, "java"@, "kt"@, "c"@, "h"@, "cpp"@, "hpp"@, "cs"@, "rb"@, "php"@, "swift"@, "scala"@, "clj"@, "ex"@, "exs"@, "erl"@, "hs"@, "ml"@, "mli"@, "toml"@, "yaml"@, "yml"@, "json"@, "jsonc"@, "xml"@, "html"@, "htm"@, "css"@, "scss"@, "md"@, "markdown"@, "txt"@, "text"@, "cfg"@, "conf"@, "ini"@, "env"@, "sh"@, "bash"@, "zsh"@, "fish"@, "ps1"@, "bat"@, "cmd"@, "dockerfile"@, "makefile"@, "cmake"@, "sql"@, "graphql"@, "proto"@, "thrift"@, "avsc"@, "tf"@, "hcl"@, "nix"@]
}

/// Extensions of binary files (lowercase).
pub open spec fn binary_extensions() -> Seq<Seq<char>> {
    seq!["o"@, "a"@, "so"@, "dylib"@, "dll"@, "exe"@, "bin"@, "class"@, "jar"@, "war"@, "png"@, "jpg"@, "jpeg"@, "gif"@, "webp"@, "ico"@, "bmp"@, "tiff"@, "pdf"@, "zip"@, "tar"@, "gz"@, "bz2"@, "xz"@, "7z"@, "rar"@, "woff"@, "woff2"@, "ttf"@, "otf"@, "eot"@, "mp3"@, "mp4"@, "wav"@, "ogg"@, "webm"@, "avi"@, "mov"@, "db"@, "sqlite"@, "sqlite3"@]
}

/// The last component of a `/`-separated path.
pub open spec fn base_name(path: Seq<char>) -> Seq<char>
    decreases path.len(),
{
    if path.len() == 0 {
        path
    } else if path.last() == '/' {
        seq![]
    } else {
        base_name(path.drop_last()).push(path.last())
    }
}

/// The extension of a file name, as `Path::extension` gives it: the text
/// after the last `.`, unless there is no `.` or the only one starts the
/// name.
pub open spec fn extension_s(name: Seq<char>) -> Option<Seq<char>>
    decreases name.len(),
{
    if name.len() == 0 {
        None
    } else if name.last() == '.' {
        if name.len() == 1 { None } else { Some(seq![]) }
    } else {
        match extension_s(name.drop_last()) {
            Some(e) => Some(e.push(name.last())),
            None => None,
        }
    }
}

/// Whether a name (lowercased) is a special text name, alone or followed
/// by a `.` suffix.
pub open spec fn special_name_s(lower: Seq<char>) -> bool {
    exists|i: int| 0 <= i < special_text_names().len() && (lower == #[trigger] special_text_names()[i]
        || crate::text::starts_with_s(lower, special_text_names()[i].push('.')))
}

/// What a path's name tells about its content: text (`Some(true)`) for a
/// special name or a text extension, binary (`Some(false)`) for a binary
/// extension, unknown (`None`) otherwise, extensions compared in ASCII
/// lowercase.
pub open spec fn text_hint_s(path: Seq<char>) -> Option<bool> {
    let name = base_name(path);
    if special_name_s(crate::text::lower_s(name)) {
        Some(true)
    } else {
        match extension_s(name) {
            Some(e) => if text_extensions().contains(crate::text::lower_s(e)) {
                Some(true)
            } else if binary_extensions().contains(crate::text::lower_s(e)) {
                Some(false)
            } else {
                None
            },
            None => None,
        }
    }
}

fn in_list(list: &Vec<&'static str>, x: &Vec<char>) -> (r: bool)
    ensures
        r == list@.map_values(|s: &str| s@).contains(x@),
{
    let ghost lv = list@.map_values(|s: &str| s@);
    let mut i: usize = 0;
    while i < list.len()
        invariant
            i <= list.len(),
            lv == list@.map_values(|s: &str| s@),
            forall|j: int| 0 <= j < i ==> lv[j] != x@,
        decreases list.len() - i,
    {
        if eq_chars(&chars_of(list[i]), x) {
            assert(lv[i as int] == x@);
            return true;
        }
        i = i + 1;
    }
    assert(!lv.contains(x@)) by {
        if lv.contains(x@) {
            let j = choose|j: int| 0 <= j < lv.len() && lv[j] == x@;
            assert(lv[j] != x@);
        }
    }
    false
}

/// Whether a path's name alone decides if the file is text; `None` when
/// its content must be looked at.
pub fn text_hint(path: &str) -> (r: Option<bool>)
    ensures
        r == text_hint_s(path@),
{
    let p = chars_of(path);
    // the last component
    let mut start: usize = p.len();
    assert(p@.take(p@.len() as int) =~= p@);
    assert(p@.skip(p@.len() as int) =~= Seq::<char>::empty());
    while start > 0 && p[start - 1] != '/'
        invariant
            start <= p.len(),
            base_name(p@) == base_name(p@.take(start as int)) + p@.skip(start as int),
        decreases start,
    {
        proof {
            assert(p@.take(start as int).drop_last() =~= p@.take(start - 1));
            assert(p@.skip(start - 1) =~= seq![p@[start - 1]] + p@.skip(start as int));
            assert(base_name(p@.take(start - 1)).push(p@[start - 1]) + p@.skip(start as int) =~= base_name(p@.take(start - 1)) + p@.skip(start - 1));
        }
        start = start - 1;
    }
    proof {
        if start > 0 {
            assert(p@.take(start as int).last() == '/');
        }
        assert(base_name(p@.take(start as int)) =~= seq![]) by {
            if start > 0 {
                assert(p@.take(start as int).last() == p@[start - 1]);
            }
        }
    }
    let name = crate::text::slice(&p, start, p.len());
    assert(name@ =~= base_name(path@));
    let low = crate::text::lower(&name);
    let specials: Vec<&'static str> = vec!["dockerfile", "containerfile", "makefile", "gnumakefile", "cmakelists.txt", "rakefile", "gemfile", "procfile", "vagrantfile", "jenkinsfile", "brewfile"];
    let texts: Vec<&'static str> = vec!["rs", "go", "py", "js", "ts", "tsx", "jsx", "java", "kt", "c", "h", "cpp", "hpp", "cs", "rb", "php", "swift", "scala", "clj", "ex", "exs", "erl", "hs", "ml", "mli", "toml", "yaml", "yml", "json", "jsonc", "xml", "html", "htm", "css", "scss", "md", "markdown", "txt", "text", "cfg", "conf", "ini", "env", "sh", "bash", "zsh", "fish", "ps1", "bat", "cmd", "dockerfile", "makefile", "cmake", "sql", "graphql", "proto", "thrift", "avsc", "tf", "hcl", "nix"];
    let binaries: Vec<&'static str> = vec!["o", "a", "so", "dylib", "dll", "exe", "bin", "class", "jar", "war", "png", "jpg", "jpeg", "gif", "webp", "ico", "bmp", "tiff", "pdf", "zip", "tar", "gz", "bz2", "xz", "7z", "rar", "woff", "woff2", "ttf", "otf", "eot", "mp3", "mp4", "wav", "ogg", "webm", "avi", "mov", "db", "sqlite", "sqlite3"];
    assert(specials@.map_values(|s: &str| s@) =~= special_text_names());
    assert(texts@.map_values(|s: &str| s@) =~= text_extensions());
    assert(binaries@.map_values(|s: &str| s@) =~= binary_extensions());
    let mut k: usize = 0;
    while k < specials.len()
        invariant
            k <= specials.len(),
            specials@.map_values(|s: &str| s@) == special_text_names(),
            low@ == crate::text::lower_s(name@),
            name@ == base_name(path@),
            forall|j: int| 0 <= j < k ==> !(low@ == #[trigger] special_text_names()[j]
                || crate::text::starts_with_s(low@, special_text_names()[j].push('.'))),
        decreases specials.len() - k,
    {
        let mut sd = chars_of(specials[k]);
        let ghost sk = sd@;
        sd.push('.');
        assert(specials@.map_values(|s: &str| s@)[k as int] == sk);
        assert(sk == special_text_names()[k as int]);
        assert(sd@ == sk.push('.'));
        if eq_chars(&low, &chars_of(specials[k])) || crate::text::starts_with(&low, sd.as_slice()) {
            assert(low@ == special_text_names()[k as int] || crate::text::starts_with_s(low@, special_text_names()[k as int].push('.')));
            assert(special_name_s(low@));
            assert(low@ == crate::text::lower_s(base_name(path@)));
            return Some(true);
        }
        k = k + 1;
    }
    assert(!special_name_s(low@));
    // the extension
    let mut d: usize = name.len();
    assert(name@.take(name@.len() as int) =~= name@);
    assert(name@.skip(name@.len() as int) =~= Seq::<char>::empty());
    proof {
        match extension_s(name@) {
            Some(e) => { assert(e + Seq::<char>::empty() =~= e); },
            None => {},
        }
    }
    while d > 0 && name[d - 1] != '.'
        invariant
            d <= name.len(),
            name@ == base_name(path@),
            !special_name_s(crate::text::lower_s(name@)),
            extension_s(name@) == match extension_s(name@.take(d as int)) {
                Some(e) => Some(e + name@.skip(d as int)),
                None => None::<Seq<char>>,
            },
        decreases d,
    {
        proof {
            assert(name@.take(d as int).drop_last() =~= name@.take(d - 1));
            assert(name@.skip(d - 1) =~= seq![name@[d - 1]] + name@.skip(d as int));
            match extension_s(name@.take(d - 1)) {
                Some(e) => {
                    assert(e.push(name@[d - 1]) + name@.skip(d as int) =~= e + name@.skip(d - 1));
                },
                None => {},
            }
        }
        d = d - 1;
    }
    if d <= 1 {
        proof {
            if d == 1 {
                assert(name@.take(1).last() == '.');
            }
        }
        return None;
    }
    let ext = crate::text::slice(&name, d, name.len());
    proof {
        assert(name@.take(d as int).last() == '.');
        assert(extension_s(name@.take(d as int)) == Some(Seq::<char>::empty()));
        assert(Seq::<char>::empty() + name@.skip(d as int) =~= ext@);
    }
    let le = crate::text::lower(&ext);
    if in_list(&texts, &le) {
        Some(true)
    } else if in_list(&binaries, &le) {
        Some(false)
    } else {
        None
    }
}

/// Whether the first bytes of a file look like text: none is a NUL byte.
pub fn head_is_text(head: &[u8]) -> (r: bool)
    ensures
        r == !head@.contains(0u8),
{
    let mut i: usize = 0;
    while i < head.len()
        invariant
            i <= head.len(),
            forall|j: int| 0 <= j < i ==> head@[j] != 0u8,
        decreases head.len() - i,
    {
        if head[i] == 0 {
            assert(head@[i as int] == 0u8);
            return false;
        }
        i = i + 1;
    }
    true
}

/// How deep the search for key usage goes inside a service folder.
pub const MAX_SEARCH_DEPTH: usize = 20;

/// Whether the search for key usage enters a folder: not hidden and not in
/// the skip list.
pub fn searches_dir(name: &str, skip_dirs: &Vec<String>) -> (r: bool)
    ensures
        r == (!crate::text::starts_with_s(name@, "."@) && !strings_view(skip_dirs@).contains(name@)),
{
    !crate::text::starts_with(&chars_of(name), chars_of(".").as_slice()) && !crate::context::has_string(skip_dirs, name)
}

} // verus!
