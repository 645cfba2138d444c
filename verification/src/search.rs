//! Searching the key index: exact (ASCII case-insensitive) key lookup, glob
//! patterns over keys, and the distinct key names.

use vstd::prelude::*;

use crate::color::{colored_kv_label, kv_label_s, AnsiColor, ColorConfig};
use crate::compare::entries_view;
use crate::display::TreeEntry;

use nucleo_matcher::pattern::{CaseMatching, Normalization, Pattern};
use nucleo_matcher::{Config as MatcherConfig, Matcher};

use crate::model::{EnvFile, EnvKey};
use crate::parser::{pairs_view, parse, parse_kind_s, strings_view};
use crate::order::{insert_sorted, is_sorted_listing, lemma_sorted_list_is, sorted_list, strictly_sorted};
use crate::pattern::{glob_match, glob_matches, glob_valid, GlobError};
use crate::text::{chars_of, decimal, eq_chars, lower, lower_s, string_of, trim, trim_s, append};

verus! {

/// Whether a query is blank.
pub open spec fn blank_query(q: Seq<char>) -> bool {
    trim_s(q).len() == 0
}

/// The keys of the index whose name equals `query` ignoring ASCII case, in
/// index order; the whole index for a blank query.
pub fn search_exact<'a>(index: &'a Vec<EnvKey>, query: &str) -> (r: Vec<&'a EnvKey>)
    ensures
        blank_query(query@) ==> r@.len() == index@.len() && forall|i: int| 0 <= i < index@.len() ==> *r@[i] == index@[i],
        !blank_query(query@) ==> r@.map_values(|k: &EnvKey| *k) == index@.filter(
            |k: EnvKey| lower_s(k.key@) == lower_s(query@),
        ),
{
    let blank = trim(&chars_of(query)).len() == 0;
    let q = lower(&chars_of(query));
    let ghost p = |k: EnvKey| lower_s(k.key@) == lower_s(query@);
    let mut out: Vec<&'a EnvKey> = Vec::new();
    let mut i: usize = 0;
    while i < index.len()
        invariant
            i <= index.len(),
            q@ == lower_s(query@),
            blank == blank_query(query@),
            p == (|k: EnvKey| lower_s(k.key@) == lower_s(query@)),
            blank ==> out@.len() == i && forall|j: int| 0 <= j < i ==> *out@[j] == index@[j],
            !blank ==> out@.map_values(|k: &EnvKey| *k) == index@.take(i as int).filter(p),
        decreases index.len() - i,
    {
        let k = &index[i];
        proof {
            assert(index@.take(i + 1) =~= index@.take(i as int).push(index@[i as int]));
            index@.take(i as int).lemma_filter_push(index@[i as int], p);
        }
        let ghost before = out@;
        if blank || eq_chars(&lower(&chars_of(k.key.as_str())), &q) {
            out.push(k);
            assert(out@.map_values(|k: &EnvKey| *k) =~= before.map_values(|k: &EnvKey| *k).push(*k));
        }
        i = i + 1;
    }
    assert(index@.take(index@.len() as int) =~= index@);
    out
}

/// The index's key names as a set.
pub open spec fn key_names(index: Seq<EnvKey>) -> Set<Seq<char>> {
    index.map_values(|k: EnvKey| k.key@).to_set()
}

/// The distinct key names of the index, sorted.
pub fn distinct_keys(index: &Vec<EnvKey>) -> (r: Vec<String>)
    ensures
        r@.map_values(|s: String| s@) == sorted_list(key_names(index@)),
{
    let ghost kv = index@.map_values(|k: EnvKey| k.key@);
    let mut keys: Vec<Vec<char>> = Vec::new();
    let mut i: usize = 0;
    assert(keys@.map_values(|x: Vec<char>| x@).to_set() =~= kv.take(0).to_set());
    while i < index.len()
        invariant
            i <= index.len(),
            kv == index@.map_values(|k: EnvKey| k.key@),
            strictly_sorted(keys@.map_values(|x: Vec<char>| x@)),
            keys@.map_values(|x: Vec<char>| x@).to_set() == kv.take(i as int).to_set(),
        decreases index.len() - i,
    {
        insert_sorted(&mut keys, chars_of(index[i].key.as_str()));
        proof {
            assert(kv.take(i + 1) =~= kv.take(i as int).push(kv[i as int]));
            kv.take(i as int).lemma_push_to_set_commute(kv[i as int]);
        }
        i = i + 1;
    }
    assert(kv.take(index.len() as int) =~= kv);
    proof {
        lemma_sorted_list_is(keys@.map_values(|x: Vec<char>| x@), key_names(index@));
    }
    let mut out: Vec<String> = Vec::new();
    let mut j: usize = 0;
    while j < keys.len()
        invariant
            j <= keys.len(),
            out@.map_values(|s: String| s@) == keys@.take(j as int).map_values(|x: Vec<char>| x@),
        decreases keys.len() - j,
    {
        let s = string_of(&keys[j]);
        let ghost before = out@;
        out.push(s);
        assert(out@.map_values(|s: String| s@) =~= before.map_values(|s: String| s@).push(keys@[j as int]@));
        assert(keys@.take(j + 1) =~= keys@.take(j as int).push(keys@[j as int]));
        j = j + 1;
    }
    assert(keys@.take(keys@.len() as int) =~= keys@);
    out
}

/// Why a glob search failed: the pattern does not compile.
#[derive(Debug, PartialEq, Eq)]
pub struct InvalidPattern {
    pub query: String,
    pub error: GlobError,
}

impl InvalidPattern {
    /// `invalid pattern '<query>': Pattern syntax error near position <pos>:
    /// <msg>`.
    pub fn message(&self) -> (r: String)
        ensures
            r@ == "invalid pattern '"@ + self.query@ + "': Pattern syntax error near position "@
                + crate::text::dec_s(self.error.pos as nat) + ": "@ + self.error.msg@,
    {
        let mut out = chars_of("invalid pattern '");
        append(&mut out, chars_of(self.query.as_str()).as_slice());
        append(&mut out, chars_of("': Pattern syntax error near position ").as_slice());
        append(&mut out, decimal(self.error.pos).as_slice());
        append(&mut out, chars_of(": ").as_slice());
        append(&mut out, chars_of(self.error.msg.as_str()).as_slice());
        string_of(&out)
    }
}

/// The keys whose ASCII-lowercased name matches the ASCII-lowercased glob
/// `query` (so matching ignores ASCII case), in index order; the whole index
/// for a blank query; an error when the lowercased pattern does not compile.
pub fn search_glob<'a>(index: &'a Vec<EnvKey>, query: &str) -> (r: Result<Vec<&'a EnvKey>, InvalidPattern>)
    ensures
        blank_query(query@) ==> (r matches Ok(v) && v@.len() == index@.len() && forall|i: int|
            0 <= i < index@.len() ==> *v@[i] == index@[i]),
        !blank_query(query@) ==> match r {
            Ok(v) => glob_valid(lower_s(query@)) && v@.map_values(|k: &EnvKey| *k) == index@.filter(
                |k: EnvKey| glob_matches(lower_s(query@), lower_s(k.key@)),
            ),
            Err(e) => !glob_valid(lower_s(query@)) && e.query@ == query@,
        },
{
    if trim(&chars_of(query)).len() == 0 {
        let mut out: Vec<&'a EnvKey> = Vec::new();
        let mut i: usize = 0;
        while i < index.len()
            invariant
                i <= index.len(),
                out@.len() == i,
                forall|j: int| 0 <= j < i ==> *out@[j] == index@[j],
            decreases index.len() - i,
        {
            out.push(&index[i]);
            i = i + 1;
        }
        return Ok(out);
    }
    let lowered = string_of(&lower(&chars_of(query)));
    match glob_match(lowered.as_str(), "") {
        Err(e) => {
            return Err(InvalidPattern { query: query.to_owned(), error: e });
        },
        Ok(_) => {},
    }
    let ghost p = |k: EnvKey| glob_matches(lower_s(query@), lower_s(k.key@));
    let mut out: Vec<&'a EnvKey> = Vec::new();
    let mut i: usize = 0;
    while i < index.len()
        invariant
            i <= index.len(),
            lowered@ == lower_s(query@),
            glob_valid(lower_s(query@)),
            p == (|k: EnvKey| glob_matches(lower_s(query@), lower_s(k.key@))),
            out@.map_values(|k: &EnvKey| *k) == index@.take(i as int).filter(p),
        decreases index.len() - i,
    {
        let k = &index[i];
        proof {
            assert(index@.take(i + 1) =~= index@.take(i as int).push(index@[i as int]));
            index@.take(i as int).lemma_filter_push(index@[i as int], p);
        }
        let kl = string_of(&lower(&chars_of(k.key.as_str())));
        let ghost before = out@;
        match glob_match(lowered.as_str(), kl.as_str()) {
            Ok(true) => {
                out.push(k);
                assert(out@.map_values(|k: &EnvKey| *k) =~= before.map_values(|k: &EnvKey| *k).push(*k));
            },
            _ => {},
        }
        i = i + 1;
    }
    assert(index@.take(index@.len() as int) =~= index@);
    Ok(out)
}

/// The tree entry of a search result: under its service and file,
/// `key = value` in the key and value colors.
pub open spec fn result_entry_s(k: EnvKey, colors: ColorConfig, use_color: bool) -> (Seq<char>, Seq<char>, Seq<char>, AnsiColor, bool) {
    (k.service@, k.file_display@, kv_label_s(k.key@, k.value@, colors.key, colors.value, use_color), colors.key, true)
}

/// One tree entry per search result, in order.
pub fn result_entries(results: &Vec<&EnvKey>, colors: &ColorConfig, use_color: bool) -> (r: Vec<TreeEntry>)
    ensures
        entries_view(r@) == results@.map_values(|k: &EnvKey| result_entry_s(*k, *colors, use_color)),
{
    let mut out: Vec<TreeEntry> = Vec::new();
    let mut i: usize = 0;
    while i < results.len()
        invariant
            i <= results.len(),
            entries_view(out@) == results@.take(i as int).map_values(|k: &EnvKey| result_entry_s(*k, *colors, use_color)),
        decreases results.len() - i,
    {
        let k = results[i];
        let e = TreeEntry {
            service: k.service.clone(),
            file: k.file_display.clone(),
            label: colored_kv_label(k.key.as_str(), k.value.as_str(), colors.key, colors.value, use_color),
            color: colors.key,
            counted: true,
        };
        let ghost before = out@;
        out.push(e);
        proof {
            assert(entries_view(out@) =~= entries_view(before).push((e.service@, e.file@, e.label@, e.color, e.counted)));
            assert(results@.take(i + 1) =~= results@.take(i as int).push(results@[i as int]));
        }
        i = i + 1;
    }
    assert(results@.take(results.len() as int) =~= results@);
    out
}

/// The items `nucleo_matcher` keeps for a fuzzy query, best match first.
pub uninterp spec fn fuzzy_list(items: Seq<Seq<char>>, query: Seq<char>) -> Seq<Seq<char>>;

/// `nucleo_matcher::pattern::Pattern::match_list` with the pattern parsed
/// from `query` ignoring case with smart normalization, and the default
/// matcher configuration. Trusted: the result is the matched items, as the
/// crate returns them (by descending score) for these items and query.
#[verifier::external_body]
fn fuzzy_match(items: &Vec<String>, query: &str) -> (r: Vec<String>)
    ensures
        strings_view(r@) == fuzzy_list(strings_view(items@), query@),
{
    let mut matcher = Matcher::new(MatcherConfig::DEFAULT);
    let pattern = Pattern::parse(query, CaseMatching::Ignore, Normalization::Smart);
    pattern.match_list(items.iter(), &mut matcher).into_iter().map(|(s, _)| s.clone()).collect()
}

/// Fuzzy-filter a list of strings by `query`, best match first; a blank
/// query returns the list unchanged.
pub fn fuzzy_strings(items: &Vec<String>, query: &str) -> (r: Vec<String>)
    ensures
        blank_query(query@) ==> strings_view(r@) == strings_view(items@),
        !blank_query(query@) ==> strings_view(r@) == fuzzy_list(strings_view(items@), query@),
{
    if trim(&chars_of(query)).len() == 0 {
        crate::context::copy_strings(items)
    } else {
        fuzzy_match(items, query)
    }
}

/// The text a key is fuzzy-matched on: `service KEY file`.
pub open spec fn haystack_s(k: EnvKey) -> Seq<char> {
    k.service@ + " "@ + k.key@ + " "@ + k.file_display@
}

/// The first position at or after `j` not yet taken whose text is `t`
/// (-1 when there is none).
pub open spec fn first_free(hs: Seq<Seq<char>>, taken: Seq<bool>, t: Seq<char>, j: int) -> int
    decreases hs.len() - j,
{
    if j < 0 || j >= hs.len() {
        -1
    } else if !taken[j] && hs[j] == t {
        j
    } else {
        first_free(hs, taken, t, j + 1)
    }
}

/// The positions the matched texts `ts` stand for, each the first position
/// with that text not taken by an earlier one, and the positions taken.
pub open spec fn picks_s(hs: Seq<Seq<char>>, ts: Seq<Seq<char>>) -> (Seq<int>, Seq<bool>)
    decreases ts.len(),
{
    if ts.len() == 0 {
        (seq![], Seq::new(hs.len(), |i: int| false))
    } else {
        let (p, u) = picks_s(hs, ts.drop_last());
        let k = first_free(hs, u, ts.last(), 0);
        if k < 0 {
            (p, u)
        } else {
            (p.push(k), u.update(k, true))
        }
    }
}

proof fn lemma_first_free_range(hs: Seq<Seq<char>>, taken: Seq<bool>, t: Seq<char>, j: int)
    requires
        0 <= j,
    ensures
        first_free(hs, taken, t, j) == -1 || (j <= first_free(hs, taken, t, j) < hs.len()
            && hs[first_free(hs, taken, t, j)] == t && !taken[first_free(hs, taken, t, j)]),
    decreases hs.len() - j,
{
    if j < hs.len() && !(!taken[j] && hs[j] == t) {
        lemma_first_free_range(hs, taken, t, j + 1);
    }
}

proof fn lemma_picks_shape(hs: Seq<Seq<char>>, ts: Seq<Seq<char>>)
    ensures
        picks_s(hs, ts).1.len() == hs.len(),
        forall|i: int| 0 <= i < picks_s(hs, ts).0.len() ==> 0 <= #[trigger] picks_s(hs, ts).0[i] < hs.len(),
    decreases ts.len(),
{
    if ts.len() > 0 {
        lemma_picks_shape(hs, ts.drop_last());
        let (p, u) = picks_s(hs, ts.drop_last());
        lemma_first_free_range(hs, u, ts.last(), 0);
    }
}

/// The keys of the index matching `query` fuzzily (on `service KEY file`),
/// best match first; the whole index for a blank query.
pub fn search<'a>(index: &'a Vec<EnvKey>, query: &str) -> (r: Vec<&'a EnvKey>)
    ensures
        blank_query(query@) ==> r@.len() == index@.len() && forall|i: int| 0 <= i < index@.len() ==> *r@[i] == index@[i],
        !blank_query(query@) ==> {
            let hs = index@.map_values(|k: EnvKey| haystack_s(k));
            let p = picks_s(hs, fuzzy_list(hs, query@)).0;
            &&& r@.len() == p.len()
            &&& forall|i: int| 0 <= i < p.len() ==> *r@[i] == index@[p[i]]
        },
{
    if trim(&chars_of(query)).len() == 0 {
        let mut all: Vec<&'a EnvKey> = Vec::new();
        let mut i: usize = 0;
        while i < index.len()
            invariant
                i <= index.len(),
                all@.len() == i,
                forall|j: int| 0 <= j < i ==> *all@[j] == index@[j],
            decreases index.len() - i,
        {
            all.push(&index[i]);
            i = i + 1;
        }
        return all;
    }
    let ghost hs = index@.map_values(|k: EnvKey| haystack_s(k));
    let mut hay: Vec<String> = Vec::new();
    let mut i: usize = 0;
    while i < index.len()
        invariant
            i <= index.len(),
            hs == index@.map_values(|k: EnvKey| haystack_s(k)),
            strings_view(hay@) == hs.take(i as int),
        decreases index.len() - i,
    {
        let k = &index[i];
        let mut t = chars_of(k.service.as_str());
        append(&mut t, chars_of(" ").as_slice());
        append(&mut t, chars_of(k.key.as_str()).as_slice());
        append(&mut t, chars_of(" ").as_slice());
        append(&mut t, chars_of(k.file_display.as_str()).as_slice());
        let ghost before = hay@;
        hay.push(string_of(&t));
        proof {
            assert(strings_view(hay@) =~= strings_view(before).push(t@));
            assert(hs.take(i + 1) =~= hs.take(i as int).push(hs[i as int]));
        }
        i = i + 1;
    }
    assert(hs.take(index.len() as int) =~= hs);
    let ts = fuzzy_match(&hay, query);
    let ghost tv = strings_view(ts@);
    let mut taken: Vec<bool> = Vec::new();
    let mut z: usize = 0;
    while z < index.len()
        invariant
            z <= index.len(),
            taken@ == Seq::new(z as nat, |q: int| false),
        decreases index.len() - z,
    {
        taken.push(false);
        assert(taken@ =~= Seq::new((z + 1) as nat, |q: int| false));
        z = z + 1;
    }
    let mut out: Vec<&'a EnvKey> = Vec::new();
    let ghost mut picked: Seq<int> = seq![];
    let mut n: usize = 0;
    assert(tv.take(0) =~= Seq::<Seq<char>>::empty());
    while n < ts.len()
        invariant
            n <= ts.len(),
            tv == strings_view(ts@),
            strings_view(hay@) == hs,
            hs.len() == index@.len(),
            (picked, taken@) == picks_s(hs, tv.take(n as int)),
            out@.len() == picked.len(),
            forall|q: int| 0 <= q < picked.len() ==> 0 <= #[trigger] picked[q] < index@.len() && *out@[q] == index@[picked[q]],
        decreases ts.len() - n,
    {
        let t = chars_of(ts[n].as_str());
        proof {
            lemma_picks_shape(hs, tv.take(n as int));
            assert(tv.take(n + 1).drop_last() =~= tv.take(n as int));
            assert(tv.take(n + 1).last() == t@);
        }
        let mut j: usize = 0;
        let mut found = false;
        while j < hay.len() && !found
            invariant
                j <= hay.len(),
                strings_view(hay@) == hs,
                taken@.len() == hs.len(),
                !found ==> first_free(hs, taken@, t@, 0) == first_free(hs, taken@, t@, j as int),
                found ==> j >= 1 && first_free(hs, taken@, t@, 0) == j - 1,
            decreases hay.len() - j, (if found { 0int } else { 1int }),
        {
            if !taken[j] && eq_chars(&chars_of(hay[j].as_str()), &t) {
                found = true;
                assert(first_free(hs, taken@, t@, j as int) == j);
            } else {
                assert(first_free(hs, taken@, t@, j as int) == first_free(hs, taken@, t@, j + 1));
            }
            j = j + 1;
        }
        proof {
            lemma_first_free_range(hs, taken@, t@, 0);
            if !found {
                assert(first_free(hs, taken@, t@, j as int) == -1);
            }
        }
        if found {
            let k = j - 1;
            taken.set(k, true);
            out.push(&index[k]);
            proof {
                picked = picked.push(k as int);
            }
        }
        n = n + 1;
    }
    proof {
        assert(tv.take(ts.len() as int) =~= tv);
    }
    out
}

/// The index entries of one file of `service`: one per pair parsed from
/// its `content`, in order.
pub fn index_file(service: &str, file: &EnvFile, content: &str) -> (r: Vec<EnvKey>)
    ensures
        r@.len() == parse_kind_s(content@, file.kind).len(),
        forall|i: int| 0 <= i < r@.len() ==> {
            let k = #[trigger] r@[i];
            &&& k.service@ == service@
            &&& k.file_display@ == file.display@
            &&& k.file_kind == file.kind
            &&& k.file_path == file.path
            &&& (k.key@, k.value@) == parse_kind_s(content@, file.kind)[i]
        },
{
    let pairs = parse(content, file.kind);
    let ghost pv = pairs_view(pairs@);
    let mut out: Vec<EnvKey> = Vec::new();
    let mut i: usize = 0;
    while i < pairs.len()
        invariant
            i <= pairs.len(),
            pv == pairs_view(pairs@),
            pv == parse_kind_s(content@, file.kind),
            out@.len() == i,
            forall|j: int| 0 <= j < i ==> {
                let k = #[trigger] out@[j];
                &&& k.service@ == service@
                &&& k.file_display@ == file.display@
                &&& k.file_kind == file.kind
                &&& k.file_path == file.path
                &&& (k.key@, k.value@) == pv[j]
            },
        decreases pairs.len() - i,
    {
        let k = EnvKey {
            service: string_of(&chars_of(service)),
            file_display: file.display.clone(),
            file_kind: file.kind,
            file_path: file.path.clone(),
            key: pairs[i].key.clone(),
            value: pairs[i].value.clone(),
        };
        assert(pv[i as int] == pairs@[i as int]@);
        out.push(k);
        i = i + 1;
    }
    out
}

} // verus!
