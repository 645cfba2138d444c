//! Keys that occur more than once within one file.

use vstd::prelude::*;

use crate::color::{colored_kv_label, kv_label_s, AnsiColor, ColorConfig};
use crate::compare::entries_view;
use crate::display::TreeEntry;
use crate::order::{insert_sorted, lemma_sorted_list_is, sorted_list, strictly_sorted};
use crate::parser::{pairs_view, ParsedPair};
use crate::text::{chars_of, eq_chars, string_of};

verus! {

/// A place where a key occurs, with the value it has there.
#[derive(Debug, Clone)]
pub struct KeyLocation {
    pub file_display: String,
    pub value: String,
}

/// A key that occurs more than once in one file, with every occurrence.
#[derive(Debug)]
pub struct DuplicateKey {
    pub key: String,
    pub locations: Vec<KeyLocation>,
}

/// The view of a location: file, value.
pub open spec fn location_view(l: KeyLocation) -> (Seq<char>, Seq<char>) {
    (l.file_display@, l.value@)
}

/// The view of a duplicate key: the key and its locations.
pub open spec fn duplicate_view(d: DuplicateKey) -> (Seq<char>, Seq<(Seq<char>, Seq<char>)>) {
    (d.key@, d.locations@.map_values(|l: KeyLocation| location_view(l)))
}

/// The values `key` has in the pairs, in order.
pub open spec fn values_of(pv: Seq<(Seq<char>, Seq<char>)>, key: Seq<char>) -> Seq<Seq<char>> {
    pv.filter(|p: (Seq<char>, Seq<char>)| p.0 == key).map_values(|p: (Seq<char>, Seq<char>)| p.1)
}

/// The keys that occur at least twice, sorted.
pub open spec fn duplicate_keys_s(pv: Seq<(Seq<char>, Seq<char>)>) -> Seq<Seq<char>> {
    sorted_list(pv.map_values(|p: (Seq<char>, Seq<char>)| p.0).to_set()).filter(
        |k: Seq<char>| values_of(pv, k).len() >= 2,
    )
}

/// The duplicates of the pairs of file `display`: each repeated key with
/// all its locations.
pub open spec fn duplicates_s(display: Seq<char>, pv: Seq<(Seq<char>, Seq<char>)>) -> Seq<(Seq<char>, Seq<(Seq<char>, Seq<char>)>)> {
    duplicate_keys_s(pv).map_values(
        |k: Seq<char>| (k, values_of(pv, k).map_values(|v: Seq<char>| (display, v))),
    )
}

/// The locations of `key` in the pairs of file `display`.
fn locations_of(display: &str, pairs: &Vec<ParsedPair>, key: &Vec<char>) -> (r: Vec<KeyLocation>)
    ensures
        r@.map_values(|l: KeyLocation| location_view(l)) == values_of(pairs_view(pairs@), key@).map_values(
            |v: Seq<char>| (display@, v),
        ),
{
    let ghost pv = pairs_view(pairs@);
    let ghost f = |p: (Seq<char>, Seq<char>)| p.0 == key@;
    let mut out: Vec<KeyLocation> = Vec::new();
    let mut i: usize = 0;
    while i < pairs.len()
        invariant
            i <= pairs.len(),
            pv == pairs_view(pairs@),
            f == (|p: (Seq<char>, Seq<char>)| p.0 == key@),
            out@.map_values(|l: KeyLocation| location_view(l)) == values_of(pv.take(i as int), key@).map_values(
                |v: Seq<char>| (display@, v),
            ),
        decreases pairs.len() - i,
    {
        proof {
            assert(pv.take(i + 1) =~= pv.take(i as int).push(pv[i as int]));
            pv.take(i as int).lemma_filter_push(pv[i as int], f);
        }
        if eq_chars(&chars_of(pairs[i].key.as_str()), key) {
            let l = KeyLocation { file_display: string_of(&chars_of(display)), value: pairs[i].value.clone() };
            let ghost before = out@;
            out.push(l);
            assert(out@.map_values(|l: KeyLocation| location_view(l)) =~= before.map_values(
                |l: KeyLocation| location_view(l),
            ).push(location_view(l)));
            assert(values_of(pv.take(i + 1), key@) =~= values_of(pv.take(i as int), key@).push(pv[i as int].1));
        } else {
            assert(values_of(pv.take(i + 1), key@) =~= values_of(pv.take(i as int), key@));
        }
        i = i + 1;
    }
    assert(pv.take(pairs.len() as int) =~= pv);
    out
}

/// The keys that occur more than once among the pairs read from file
/// `display`, sorted by key, each with every location where it occurs.
pub fn find_duplicates(display: &str, pairs: &Vec<ParsedPair>) -> (r: Vec<DuplicateKey>)
    ensures
        r@.map_values(|d: DuplicateKey| duplicate_view(d)) == duplicates_s(display@, pairs_view(pairs@)),
{
    let ghost pv = pairs_view(pairs@);
    let ghost kv = pv.map_values(|p: (Seq<char>, Seq<char>)| p.0);
    let mut keys: Vec<Vec<char>> = Vec::new();
    let mut i: usize = 0;
    assert(keys@.map_values(|x: Vec<char>| x@).to_set() =~= kv.take(0).to_set());
    while i < pairs.len()
        invariant
            i <= pairs.len(),
            pv == pairs_view(pairs@),
            kv == pv.map_values(|p: (Seq<char>, Seq<char>)| p.0),
            strictly_sorted(keys@.map_values(|x: Vec<char>| x@)),
            keys@.map_values(|x: Vec<char>| x@).to_set() == kv.take(i as int).to_set(),
        decreases pairs.len() - i,
    {
        insert_sorted(&mut keys, chars_of(pairs[i].key.as_str()));
        proof {
            assert(kv.take(i + 1) =~= kv.take(i as int).push(kv[i as int]));
            kv.take(i as int).lemma_push_to_set_commute(kv[i as int]);
        }
        i = i + 1;
    }
    assert(kv.take(pairs.len() as int) =~= kv);
    let ghost sk = keys@.map_values(|x: Vec<char>| x@);
    proof {
        lemma_sorted_list_is(sk, kv.to_set());
    }
    let ghost dup = |k: Seq<char>| values_of(pv, k).len() >= 2;
    let ghost mk = |k: Seq<char>| (k, values_of(pv, k).map_values(|v: Seq<char>| (display@, v)));
    let mut out: Vec<DuplicateKey> = Vec::new();
    let mut j: usize = 0;
    while j < keys.len()
        invariant
            j <= keys.len(),
            pv == pairs_view(pairs@),
            sk == keys@.map_values(|x: Vec<char>| x@),
            dup == (|k: Seq<char>| values_of(pv, k).len() >= 2),
            mk == (|k: Seq<char>| (k, values_of(pv, k).map_values(|v: Seq<char>| (display@, v)))),
            out@.map_values(|d: DuplicateKey| duplicate_view(d)) == sk.take(j as int).filter(dup).map_values(mk),
        decreases keys.len() - j,
    {
        let locs = locations_of(display, pairs, &keys[j]);
        proof {
            assert(sk.take(j + 1) =~= sk.take(j as int).push(sk[j as int]));
            sk.take(j as int).lemma_filter_push(sk[j as int], dup);
            assert(locs@.len() == locs@.map_values(|l: KeyLocation| location_view(l)).len());
            assert(values_of(pv, sk[j as int]).len() == values_of(pv, sk[j as int]).map_values(|v: Seq<char>| (display@, v)).len());
        }
        if locs.len() >= 2 {
            let d = DuplicateKey { key: string_of(&keys[j]), locations: locs };
            let ghost before = out@;
            out.push(d);
            assert(out@.map_values(|d: DuplicateKey| duplicate_view(d)) =~= before.map_values(
                |d: DuplicateKey| duplicate_view(d),
            ).push(duplicate_view(d)));
        }
        j = j + 1;
    }
    assert(sk.take(keys@.len() as int) =~= sk);
    out
}

/// The tree entry of a duplicate found in `service`: under the file of its
/// first occurrence, `key = value` with that occurrence's value.
pub open spec fn duplicate_entry_s(service: Seq<char>, d: DuplicateKey, colors: ColorConfig, use_color: bool) -> (Seq<char>, Seq<char>, Seq<char>, AnsiColor, bool) {
    (
        service,
        d.locations@[0].file_display@,
        kv_label_s(d.key@, d.locations@[0].value@, colors.key, colors.value, use_color),
        colors.key,
        true,
    )
}

/// One counted tree entry per duplicate of `service` that has a location.
pub fn duplicate_entries(service: &str, dupes: &Vec<DuplicateKey>, colors: &ColorConfig, use_color: bool) -> (r: Vec<TreeEntry>)
    ensures
        entries_view(r@) == dupes@.filter(|d: DuplicateKey| d.locations@.len() > 0).map_values(
            |d: DuplicateKey| duplicate_entry_s(service@, d, *colors, use_color),
        ),
{
    let ghost has = |d: DuplicateKey| d.locations@.len() > 0;
    let mut out: Vec<TreeEntry> = Vec::new();
    let mut i: usize = 0;
    while i < dupes.len()
        invariant
            i <= dupes.len(),
            has == (|d: DuplicateKey| d.locations@.len() > 0),
            entries_view(out@) == dupes@.take(i as int).filter(has).map_values(
                |d: DuplicateKey| duplicate_entry_s(service@, d, *colors, use_color),
            ),
        decreases dupes.len() - i,
    {
        let d = &dupes[i];
        proof {
            assert(dupes@.take(i + 1) =~= dupes@.take(i as int).push(dupes@[i as int]));
            dupes@.take(i as int).lemma_filter_push(dupes@[i as int], has);
        }
        if d.locations.len() > 0 {
            let first = &d.locations[0];
            let e = TreeEntry {
                service: string_of(&chars_of(service)),
                file: first.file_display.clone(),
                label: colored_kv_label(d.key.as_str(), first.value.as_str(), colors.key, colors.value, use_color),
                color: colors.key,
                counted: true,
            };
            let ghost before = out@;
            out.push(e);
            assert(entries_view(out@) =~= entries_view(before).push((e.service@, e.file@, e.label@, e.color, e.counted)));
        }
        i = i + 1;
    }
    assert(dupes@.take(dupes.len() as int) =~= dupes@);
    out
}

} // verus!
