//! Formatting-preserving key reordering, shared by the dotenv and YAML
//! editors.
//!
//! Only **key units** move: a key line, the prose `#` comment lines directly
//! above it, and the blank lines directly below it. Every other line
//! (unattached comments, commented-out assignments, non-key lines) stays
//! pinned at its index. The units keep their own lines and the pinned lines
//! do not move, so the permuted units fill the other positions exactly.
//!
//! What a key line is and which comments may attach to a key depend on the
//! format; the caller classifies each line up front.

use vstd::prelude::*;
use vstd::multiset::Multiset;

use crate::parser::strings_view;
use crate::text::{chars_of, eq_chars, trim_start, trim_start_s};

verus! {

/// A key line with the lines that travel with it.
#[derive(Debug, Clone)]
pub struct KeyUnit {
    /// The key name, which ranks the unit against the target order.
    pub key: String,
    /// The unit's lines, top to bottom.
    pub lines: Vec<String>,
}

/// Indexed lines: `(index in the region, text)`.
pub type IndexedLines = Seq<(int, Seq<char>)>;

/// Units as `(key, lines)`.
pub type UnitsView = Seq<(Seq<char>, Seq<Seq<char>>)>;

/// The scanner's state: pending comment lines, units so far, pinned lines,
/// and whether the last unit may still take trailing blank lines.
pub type ScanView = (IndexedLines, UnitsView, IndexedLines, bool);

/// The texts of indexed lines.
pub open spec fn texts(v: IndexedLines) -> Seq<Seq<char>> {
    v.map_values(|p: (int, Seq<char>)| p.1)
}

/// One line through the scanner. A blank line ends a pending comment block
/// (pinning it and itself), else trails the last unit, else is pinned. A
/// comment that may attach and is no commented-out assignment waits for the
/// next key; any other comment pins itself and the pending block. A key
/// line takes the pending block into a new unit; any other line pins itself
/// and the pending block.
pub open spec fn step_s(st: ScanView, idx: int, line: Seq<char>, key: Option<Seq<char>>, att: bool, co: bool) -> ScanView {
    let (pending, units, orphans, last) = st;
    let t = trim_start_s(line);
    let pin = (seq![], units, orphans + pending + seq![(idx, line)], false);
    if t.len() == 0 {
        if pending.len() == 0 {
            if last && units.len() > 0 {
                let k = units.len() - 1;
                (pending, units.update(k, (units[k].0, units[k].1.push(line))), orphans, last)
            } else {
                (pending, units, orphans.push((idx, line)), last)
            }
        } else {
            pin
        }
    } else if t[0] == '#' {
        if att && !co {
            (pending.push((idx, line)), units, orphans, last)
        } else {
            pin
        }
    } else {
        match key {
            Some(k) => (seq![], units.push((k, texts(pending).push(line))), orphans, true),
            None => pin,
        }
    }
}

/// The scanner's state after the first `n` lines.
pub open spec fn scan_s(
    ls: Seq<Seq<char>>,
    keys: Seq<Option<Seq<char>>>,
    att: Seq<bool>,
    co: Seq<bool>,
    n: int,
) -> ScanView
    decreases n,
{
    if n <= 0 {
        (seq![], seq![], seq![], false)
    } else {
        step_s(scan_s(ls, keys, att, co, n - 1), n - 1, ls[n - 1], keys[n - 1], att[n - 1], co[n - 1])
    }
}

/// The position of `k` in the target order (first occurrence), or the
/// order's length for a key it does not list.
pub open spec fn rank_s(order: Seq<Seq<char>>, k: Seq<char>) -> int {
    rank_from(order, k, 0)
}

/// The first position at or after `j` holding `k`, or the order's length.
pub open spec fn rank_from(order: Seq<Seq<char>>, k: Seq<char>, j: int) -> int
    decreases order.len() - j,
{
    if j < 0 || j >= order.len() {
        order.len() as int
    } else if order[j] == k {
        j
    } else {
        rank_from(order, k, j + 1)
    }
}

/// The indices among the first `m` units whose rank is `r`, in file order.
pub open spec fn bucket(units: UnitsView, order: Seq<Seq<char>>, r: int, m: int) -> Seq<int>
    decreases m,
{
    if m <= 0 {
        seq![]
    } else {
        bucket(units, order, r, m - 1) + if rank_s(order, units[m - 1].0) == r {
            seq![m - 1]
        } else {
            seq![]
        }
    }
}

/// The unit indices of ranks below `r`: by rank, file order within a rank.
pub open spec fn ranked(units: UnitsView, order: Seq<Seq<char>>, r: int) -> Seq<int>
    decreases r,
{
    if r <= 0 {
        seq![]
    } else {
        ranked(units, order, r - 1) + bucket(units, order, r - 1, units.len() as int)
    }
}

/// The units in target order: those whose key the order lists, by their
/// key's first position in it, then the others; equal ranks keep their file
/// order.
pub open spec fn target_s(units: UnitsView, order: Seq<Seq<char>>) -> Seq<int> {
    ranked(units, order, (order.len() + 1) as int)
}

/// The lines of the units at the given indices, in that order.
pub open spec fn flat(units: UnitsView, idx: Seq<int>) -> Seq<Seq<char>>
    decreases idx.len(),
{
    if idx.len() == 0 {
        seq![]
    } else {
        flat(units, idx.drop_last()) + units[idx.last()].1
    }
}

/// Fill `n` positions from `idx` on: a pinned line at its own index, every
/// other position with the next unit line.
pub open spec fn place_from(n: int, orph: IndexedLines, fl: Seq<Seq<char>>, idx: int, o: int, u: int) -> Seq<Seq<char>>
    decreases n - idx,
{
    if idx >= n {
        seq![]
    } else if 0 <= o < orph.len() && orph[o].0 == idx {
        seq![orph[o].1] + place_from(n, orph, fl, idx + 1, o + 1, u)
    } else {
        seq![fl[u]] + place_from(n, orph, fl, idx + 1, o, u + 1)
    }
}

/// The lines that stay where they are once the whole region is scanned:
/// the pinned ones and a comment block still waiting for a key.
pub open spec fn pinned_s(st: ScanView) -> IndexedLines {
    st.2 + st.0
}

/// The reordered region of `n` lines.
pub open spec fn reorder_s(
    ls: Seq<Seq<char>>,
    keys: Seq<Option<Seq<char>>>,
    att: Seq<bool>,
    co: Seq<bool>,
    order: Seq<Seq<char>>,
) -> Seq<Seq<char>> {
    let st = scan_s(ls, keys, att, co, ls.len() as int);
    place_from(ls.len() as int, pinned_s(st), flat(st.1, target_s(st.1, order)), 0, 0, 0)
}

// ---------------------------------------------------------------------------
// Facts about the scanner
// ---------------------------------------------------------------------------

/// Indices strictly increasing and below `n`.
pub open spec fn increasing_below(v: IndexedLines, n: int) -> bool {
    &&& forall|a: int, b: int| 0 <= a < b < v.len() ==> (#[trigger] v[a]).0 < (#[trigger] v[b]).0
    &&& forall|a: int| 0 <= a < v.len() ==> 0 <= (#[trigger] v[a]).0 < n
}

/// The number of lines held by the units.
pub open spec fn unit_lines(units: UnitsView) -> int
    decreases units.len(),
{
    if units.len() == 0 {
        0
    } else {
        unit_lines(units.drop_last()) + units.last().1.len()
    }
}

/// What the scanner keeps true after `n` lines.
pub open spec fn scan_ok(st: ScanView, n: int) -> bool {
    let (pending, units, orphans, last) = st;
    &&& increasing_below(orphans, n)
    &&& increasing_below(pending, n)
    &&& forall|a: int, b: int|
        0 <= a < orphans.len() && 0 <= b < pending.len() ==> (#[trigger] orphans[a]).0 < (#[trigger] pending[b]).0
    &&& unit_lines(units) + orphans.len() + pending.len() == n
}

proof fn lemma_unit_lines_push(units: UnitsView, x: (Seq<char>, Seq<Seq<char>>))
    ensures
        unit_lines(units.push(x)) == unit_lines(units) + x.1.len(),
{
    assert(units.push(x).drop_last() =~= units);
}

proof fn lemma_unit_lines_update_last(units: UnitsView, x: (Seq<char>, Seq<Seq<char>>))
    requires
        units.len() > 0,
    ensures
        unit_lines(units.update(units.len() - 1, x)) == unit_lines(units) - units.last().1.len() + x.1.len(),
{
    assert(units.update(units.len() - 1, x).drop_last() =~= units.drop_last());
}

proof fn lemma_scan_ok(
    ls: Seq<Seq<char>>,
    keys: Seq<Option<Seq<char>>>,
    att: Seq<bool>,
    co: Seq<bool>,
    n: int,
)
    requires
        0 <= n <= ls.len(),
        keys.len() == ls.len(),
        att.len() == ls.len(),
        co.len() == ls.len(),
    ensures
        scan_ok(scan_s(ls, keys, att, co, n), n),
    decreases n,
{
    if n > 0 {
        lemma_scan_ok(ls, keys, att, co, n - 1);
        let st = scan_s(ls, keys, att, co, n - 1);
        let (pending, units, orphans, last) = st;
        let idx = n - 1;
        let line = ls[idx];
        let t = trim_start_s(line);
        let merged = orphans + pending + seq![(idx, line)];
        assert(increasing_below(merged, n)) by {
            assert forall|a: int, b: int| 0 <= a < b < merged.len() implies (#[trigger] merged[a]).0 < (#[trigger] merged[b]).0 by {
                if b < orphans.len() {
                } else if b < orphans.len() + pending.len() {
                    if a >= orphans.len() {
                        assert(merged[a] == pending[a - orphans.len()]);
                        assert(merged[b] == pending[b - orphans.len()]);
                    } else {
                        assert(merged[b] == pending[b - orphans.len()]);
                    }
                } else {
                    if a >= orphans.len() {
                        assert(merged[a] == pending[a - orphans.len()]);
                    }
                }
            }
            assert forall|a: int| 0 <= a < merged.len() implies 0 <= (#[trigger] merged[a]).0 < n by {
                if a >= orphans.len() && a < orphans.len() + pending.len() {
                    assert(merged[a] == pending[a - orphans.len()]);
                }
            }
        }
        if t.len() == 0 {
            if pending.len() == 0 {
                if last && units.len() > 0 {
                    let k = units.len() - 1;
                    lemma_unit_lines_update_last(units, (units[k].0, units[k].1.push(line)));
                } else {
                    assert(increasing_below(orphans.push((idx, line)), n)) by {
                        let v = orphans.push((idx, line));
                        assert forall|a: int, b: int| 0 <= a < b < v.len() implies (#[trigger] v[a]).0 < (#[trigger] v[b]).0 by {
                            if b < orphans.len() {
                            }
                        }
                    }
                }
            }
        } else if t[0] == '#' {
            if att[idx] && !co[idx] {
                let v = pending.push((idx, line));
                assert(increasing_below(v, n)) by {
                    assert forall|a: int, b: int| 0 <= a < b < v.len() implies (#[trigger] v[a]).0 < (#[trigger] v[b]).0 by {
                        if b < pending.len() {
                        }
                    }
                }
                assert forall|a: int, b: int| 0 <= a < orphans.len() && 0 <= b < v.len() implies (#[trigger] orphans[a]).0 < (#[trigger] v[b]).0 by {
                    if b < pending.len() {
                    }
                }
            }
        } else {
            match keys[idx] {
                Some(k) => {
                    lemma_unit_lines_push(units, (k, texts(pending).push(line)));
                },
                None => {},
            }
        }
    }
}

// ---------------------------------------------------------------------------
// Facts about the target order
// ---------------------------------------------------------------------------

proof fn lemma_rank_range(order: Seq<Seq<char>>, k: Seq<char>, j: int)
    requires
        0 <= j <= order.len(),
    ensures
        j <= rank_from(order, k, j) <= order.len(),
    decreases order.len() - j,
{
    if j < order.len() && order[j] != k {
        lemma_rank_range(order, k, j + 1);
    }
}

/// The lines of the first `m` units of rank `r`.
pub open spec fn bucket_lines(units: UnitsView, order: Seq<Seq<char>>, r: int, m: int) -> int
    decreases m,
{
    if m <= 0 {
        0
    } else {
        bucket_lines(units, order, r, m - 1) + if rank_s(order, units[m - 1].0) == r {
            units[m - 1].1.len() as int
        } else {
            0
        }
    }
}

/// The lines of the first `m` units of rank below `r`.
pub open spec fn below_lines(units: UnitsView, order: Seq<Seq<char>>, r: int, m: int) -> int
    decreases m,
{
    if m <= 0 {
        0
    } else {
        below_lines(units, order, r, m - 1) + if rank_s(order, units[m - 1].0) < r {
            units[m - 1].1.len() as int
        } else {
            0
        }
    }
}

/// The lines of units of ranks below `r`, rank by rank, over the first `m`.
pub open spec fn ranked_lines(units: UnitsView, order: Seq<Seq<char>>, r: int, m: int) -> int
    decreases r,
{
    if r <= 0 {
        0
    } else {
        ranked_lines(units, order, r - 1, m) + bucket_lines(units, order, r - 1, m)
    }
}

proof fn lemma_flat_append(units: UnitsView, a: Seq<int>, b: Seq<int>)
    ensures
        flat(units, a + b) == flat(units, a) + flat(units, b),
    decreases b.len(),
{
    if b.len() == 0 {
        assert(a + b =~= a);
    } else {
        assert((a + b).drop_last() =~= a + b.drop_last());
        lemma_flat_append(units, a, b.drop_last());
    }
}

proof fn lemma_bucket_flat(units: UnitsView, order: Seq<Seq<char>>, r: int, m: int)
    requires
        0 <= m <= units.len(),
    ensures
        flat(units, bucket(units, order, r, m)).len() == bucket_lines(units, order, r, m),
        forall|i: int| 0 <= i < bucket(units, order, r, m).len() ==> 0 <= #[trigger] bucket(units, order, r, m)[i] < m,
    decreases m,
{
    if m > 0 {
        lemma_bucket_flat(units, order, r, m - 1);
        let b = bucket(units, order, r, m - 1);
        if rank_s(order, units[m - 1].0) == r {
            assert(bucket(units, order, r, m) == b + seq![m - 1]);
            lemma_flat_append(units, b, seq![m - 1]);
            assert(seq![m - 1].drop_last() =~= Seq::<int>::empty());
            assert(flat(units, seq![m - 1]) =~= flat(units, Seq::<int>::empty()) + units[m - 1].1);
        } else {
            assert(bucket(units, order, r, m) =~= b);
        }
    }
}

proof fn lemma_ranked_flat(units: UnitsView, order: Seq<Seq<char>>, r: int)
    requires
        r >= 0,
    ensures
        flat(units, ranked(units, order, r)).len() == ranked_lines(units, order, r, units.len() as int),
    decreases r,
{
    if r > 0 {
        lemma_ranked_flat(units, order, r - 1);
        lemma_flat_append(units, ranked(units, order, r - 1), bucket(units, order, r - 1, units.len() as int));
        lemma_bucket_flat(units, order, r - 1, units.len() as int);
    }
}

proof fn lemma_ranked_lines_step(units: UnitsView, order: Seq<Seq<char>>, r: int, m: int)
    requires
        r >= 0,
        0 < m <= units.len(),
    ensures
        ranked_lines(units, order, r, m) == ranked_lines(units, order, r, m - 1) + if rank_s(order, units[m - 1].0) < r {
            units[m - 1].1.len() as int
        } else {
            0
        },
    decreases r,
{
    lemma_rank_range(order, units[m - 1].0, 0);
    if r > 0 {
        lemma_ranked_lines_step(units, order, r - 1, m);
    }
}

proof fn lemma_ranked_is_below(units: UnitsView, order: Seq<Seq<char>>, r: int, m: int)
    requires
        r >= 0,
        0 <= m <= units.len(),
    ensures
        ranked_lines(units, order, r, m) == below_lines(units, order, r, m),
    decreases m,
{
    if m > 0 {
        lemma_ranked_is_below(units, order, r, m - 1);
        lemma_ranked_lines_step(units, order, r, m);
    } else {
        lemma_ranked_zero(units, order, r);
    }
}

proof fn lemma_ranked_zero(units: UnitsView, order: Seq<Seq<char>>, r: int)
    requires
        r >= 0,
    ensures
        ranked_lines(units, order, r, 0) == 0,
    decreases r,
{
    if r > 0 {
        lemma_ranked_zero(units, order, r - 1);
    }
}

proof fn lemma_below_all(units: UnitsView, order: Seq<Seq<char>>, m: int)
    requires
        0 <= m <= units.len(),
    ensures
        below_lines(units, order, (order.len() + 1) as int, m) == unit_lines(units.take(m)),
    decreases m,
{
    if m > 0 {
        lemma_below_all(units, order, m - 1);
        lemma_rank_range(order, units[m - 1].0, 0);
        assert(units.take(m).drop_last() =~= units.take(m - 1));
    } else {
        assert(units.take(0) =~= Seq::<(Seq<char>, Seq<Seq<char>>)>::empty());
    }
}

/// The target order holds as many lines as the units.
proof fn lemma_target_lines(units: UnitsView, order: Seq<Seq<char>>)
    ensures
        flat(units, target_s(units, order)).len() == unit_lines(units),
{
    lemma_ranked_flat(units, order, (order.len() + 1) as int);
    lemma_ranked_is_below(units, order, (order.len() + 1) as int, units.len() as int);
    lemma_below_all(units, order, units.len() as int);
    assert(units.take(units.len() as int) =~= units);
}

// ---------------------------------------------------------------------------
// Facts about placing
// ---------------------------------------------------------------------------

proof fn lemma_increasing_len(v: IndexedLines, o: int, lo: int, n: int)
    requires
        increasing_below(v, n),
        0 <= o <= v.len(),
        o < v.len() ==> v[o].0 >= lo,
        lo <= n,
    ensures
        v.len() - o <= n - lo,
    decreases v.len() - o,
{
    if o < v.len() {
        if o + 1 < v.len() {
            assert(v[o].0 < v[o + 1].0);
        }
        lemma_increasing_len(v, o + 1, v[o].0 + 1, n);
    }
}

/// Pinned lines keep their index.
proof fn lemma_place_pinned(n: int, orph: IndexedLines, fl: Seq<Seq<char>>, idx: int, o: int, u: int, k: int)
    requires
        increasing_below(orph, n),
        0 <= idx <= n,
        0 <= o <= k < orph.len(),
        orph[o].0 >= idx,
    ensures
        place_from(n, orph, fl, idx, o, u).len() == n - idx,
        place_from(n, orph, fl, idx, o, u)[orph[k].0 - idx] == orph[k].1,
    decreases n - idx,
{
    lemma_place_len(n, orph, fl, idx, o, u);
    if idx < n {
        if orph[o].0 == idx {
            if k == o {
            } else {
                assert(orph[o].0 < orph[o + 1].0);
                lemma_place_pinned(n, orph, fl, idx + 1, o + 1, u, k);
                assert(orph[o].0 < orph[k].0) by {
                    if o + 1 < k {
                        assert(orph[o + 1].0 < orph[k].0);
                    }
                }
            }
        } else {
            if o < k {
                assert(orph[o].0 < orph[k].0);
            }
            lemma_place_pinned(n, orph, fl, idx + 1, o, u + 1, k);
        }
    }
}

proof fn lemma_place_len(n: int, orph: IndexedLines, fl: Seq<Seq<char>>, idx: int, o: int, u: int)
    requires
        idx <= n,
    ensures
        place_from(n, orph, fl, idx, o, u).len() == n - idx,
    decreases n - idx,
{
    if idx < n {
        if 0 <= o < orph.len() && orph[o].0 == idx {
            lemma_place_len(n, orph, fl, idx + 1, o + 1, u);
        } else {
            lemma_place_len(n, orph, fl, idx + 1, o, u + 1);
        }
    }
}

// ---------------------------------------------------------------------------
// Reordering permutes the lines
// ---------------------------------------------------------------------------

/// Every line held by the units, with multiplicity.
pub open spec fn unit_ms(units: UnitsView) -> Multiset<Seq<char>>
    decreases units.len(),
{
    if units.len() == 0 {
        Multiset::empty()
    } else {
        unit_ms(units.drop_last()).add(units.last().1.to_multiset())
    }
}

/// The lines of the first `m` units of rank `r`, with multiplicity.
pub open spec fn bucket_ms(units: UnitsView, order: Seq<Seq<char>>, r: int, m: int) -> Multiset<Seq<char>>
    decreases m,
{
    if m <= 0 {
        Multiset::empty()
    } else {
        bucket_ms(units, order, r, m - 1).add(if rank_s(order, units[m - 1].0) == r {
            units[m - 1].1.to_multiset()
        } else {
            Multiset::empty()
        })
    }
}

/// The lines of the first `m` units of rank below `r`, with multiplicity.
pub open spec fn below_ms(units: UnitsView, order: Seq<Seq<char>>, r: int, m: int) -> Multiset<Seq<char>>
    decreases m,
{
    if m <= 0 {
        Multiset::empty()
    } else {
        below_ms(units, order, r, m - 1).add(if rank_s(order, units[m - 1].0) < r {
            units[m - 1].1.to_multiset()
        } else {
            Multiset::empty()
        })
    }
}

/// The lines of units of ranks below `r`, rank by rank, over the first `m`.
pub open spec fn ranked_ms(units: UnitsView, order: Seq<Seq<char>>, r: int, m: int) -> Multiset<Seq<char>>
    decreases r,
{
    if r <= 0 {
        Multiset::empty()
    } else {
        ranked_ms(units, order, r - 1, m).add(bucket_ms(units, order, r - 1, m))
    }
}

proof fn lemma_texts_add(a: IndexedLines, b: IndexedLines)
    ensures
        texts(a + b) == texts(a) + texts(b),
{
    assert(texts(a + b) =~= texts(a) + texts(b));
}

/// The scanner loses and duplicates no line: the lines read so far are the
/// pinned ones, the pending ones and the units' lines.
proof fn lemma_scan_ms(
    ls: Seq<Seq<char>>,
    keys: Seq<Option<Seq<char>>>,
    att: Seq<bool>,
    co: Seq<bool>,
    n: int,
)
    requires
        0 <= n <= ls.len(),
        keys.len() == ls.len(),
        att.len() == ls.len(),
        co.len() == ls.len(),
    ensures
        ls.take(n).to_multiset() == texts(scan_s(ls, keys, att, co, n).2).to_multiset().add(
            texts(scan_s(ls, keys, att, co, n).0).to_multiset(),
        ).add(unit_ms(scan_s(ls, keys, att, co, n).1)),
    decreases n,
{
    broadcast use vstd::seq_lib::lemma_multiset_commutative, vstd::seq_lib::group_to_multiset_ensures, vstd::multiset::group_multiset_axioms;

    if n == 0 {
        assert(ls.take(0) =~= Seq::<Seq<char>>::empty());
        assert(texts(Seq::<(int, Seq<char>)>::empty()) =~= Seq::<Seq<char>>::empty());
        assert(ls.take(0).to_multiset() =~= Multiset::<Seq<char>>::empty());
        assert(Seq::<Seq<char>>::empty().to_multiset() =~= Multiset::<Seq<char>>::empty());
    } else {
        lemma_scan_ms(ls, keys, att, co, n - 1);
        let st = scan_s(ls, keys, att, co, n - 1);
        let (pending, units, orphans, last) = st;
        let idx = n - 1;
        let line = ls[idx];
        let t = trim_start_s(line);
        assert(ls.take(n) =~= ls.take(n - 1).push(line));
        let before = ls.take(n - 1).to_multiset();
        let after = ls.take(n).to_multiset();
        assert(after =~= before.insert(line));
        let st2 = scan_s(ls, keys, att, co, n);
        assert(st2 == step_s(st, idx, line, keys[idx], att[idx], co[idx]));
        let tp = texts(pending);
        let to = texts(orphans);
        if t.len() == 0 && pending.len() == 0 && last && units.len() > 0 {
            let k = units.len() - 1;
            let u2 = units.update(k, (units[k].0, units[k].1.push(line)));
            assert(u2.drop_last() =~= units.drop_last());
            assert(unit_ms(u2) =~= unit_ms(units).insert(line));
        } else if (t.len() == 0 && pending.len() == 0) {
            assert(texts(orphans.push((idx, line))) =~= to.push(line));
        } else if (t.len() == 0) || (t[0] == '#' && !(att[idx] && !co[idx])) || (t[0] != '#'
            && keys[idx] is None) {
            let o2 = orphans + pending + seq![(idx, line)];
            assert(texts(o2) =~= to + tp + seq![line]);
            assert((to + tp + seq![line]).to_multiset() =~= to.to_multiset().add(tp.to_multiset()).insert(line));
            assert(texts(Seq::<(int, Seq<char>)>::empty()).to_multiset() =~= Multiset::<Seq<char>>::empty());
        } else if t[0] == '#' {
            assert(texts(pending.push((idx, line))) =~= tp.push(line));
        } else {
            let k = keys[idx]->0;
            let u2 = units.push((k, tp.push(line)));
            assert(u2.drop_last() =~= units);
            assert(unit_ms(u2) =~= unit_ms(units).add(tp.to_multiset()).insert(line));
            assert(texts(Seq::<(int, Seq<char>)>::empty()).to_multiset() =~= Multiset::<Seq<char>>::empty());
        }
        assert(after =~= texts(st2.2).to_multiset().add(texts(st2.0).to_multiset()).add(unit_ms(st2.1)));
    }
}

proof fn lemma_bucket_ms(units: UnitsView, order: Seq<Seq<char>>, r: int, m: int)
    requires
        0 <= m <= units.len(),
    ensures
        flat(units, bucket(units, order, r, m)).to_multiset() == bucket_ms(units, order, r, m),
    decreases m,
{
    broadcast use vstd::seq_lib::lemma_multiset_commutative, vstd::seq_lib::group_to_multiset_ensures, vstd::multiset::group_multiset_axioms;

    if m > 0 {
        lemma_bucket_ms(units, order, r, m - 1);
        let b = bucket(units, order, r, m - 1);
        if rank_s(order, units[m - 1].0) == r {
            assert(bucket(units, order, r, m) == b + seq![m - 1]);
            lemma_flat_append(units, b, seq![m - 1]);
            assert(seq![m - 1].drop_last() =~= Seq::<int>::empty());
            assert(flat(units, seq![m - 1]) =~= flat(units, Seq::<int>::empty()) + units[m - 1].1);
            assert(flat(units, seq![m - 1]) =~= units[m - 1].1);
        } else {
            assert(bucket(units, order, r, m) =~= b);
            assert(bucket_ms(units, order, r, m) =~= bucket_ms(units, order, r, m - 1));
        }
    } else {
        assert(Seq::<Seq<char>>::empty().to_multiset() =~= Multiset::<Seq<char>>::empty());
    }
}

proof fn lemma_ranked_ms(units: UnitsView, order: Seq<Seq<char>>, r: int)
    requires
        r >= 0,
    ensures
        flat(units, ranked(units, order, r)).to_multiset() == ranked_ms(units, order, r, units.len() as int),
    decreases r,
{
    broadcast use vstd::seq_lib::lemma_multiset_commutative, vstd::seq_lib::group_to_multiset_ensures, vstd::multiset::group_multiset_axioms;

    if r > 0 {
        lemma_ranked_ms(units, order, r - 1);
        lemma_flat_append(units, ranked(units, order, r - 1), bucket(units, order, r - 1, units.len() as int));
        lemma_bucket_ms(units, order, r - 1, units.len() as int);
    } else {
        assert(Seq::<Seq<char>>::empty().to_multiset() =~= Multiset::<Seq<char>>::empty());
    }
}

proof fn lemma_ranked_ms_step(units: UnitsView, order: Seq<Seq<char>>, r: int, m: int)
    requires
        r >= 0,
        0 < m <= units.len(),
    ensures
        ranked_ms(units, order, r, m) == ranked_ms(units, order, r, m - 1).add(if rank_s(order, units[m - 1].0) < r {
            units[m - 1].1.to_multiset()
        } else {
            Multiset::empty()
        }),
    decreases r,
{
    broadcast use vstd::multiset::group_multiset_axioms;

    lemma_rank_range(order, units[m - 1].0, 0);
    if r > 0 {
        lemma_ranked_ms_step(units, order, r - 1, m);
        let x = units[m - 1].1.to_multiset();
        let e = Multiset::<Seq<char>>::empty();
        let bump = if rank_s(order, units[m - 1].0) == r - 1 {
            x
        } else {
            e
        };
        assert(bucket_ms(units, order, r - 1, m) == bucket_ms(units, order, r - 1, m - 1).add(bump));
        assert(ranked_ms(units, order, r, m) =~= ranked_ms(units, order, r, m - 1).add(if rank_s(order, units[m - 1].0) < r {
            x
        } else {
            e
        }));
    } else {
        assert(ranked_ms(units, order, r, m) =~= ranked_ms(units, order, r, m - 1).add(Multiset::empty()));
    }
}

proof fn lemma_ranked_ms_zero(units: UnitsView, order: Seq<Seq<char>>, r: int)
    requires
        r >= 0,
    ensures
        ranked_ms(units, order, r, 0) == Multiset::<Seq<char>>::empty(),
    decreases r,
{
    broadcast use vstd::multiset::group_multiset_axioms;

    if r > 0 {
        lemma_ranked_ms_zero(units, order, r - 1);
        assert(ranked_ms(units, order, r, 0) =~= Multiset::<Seq<char>>::empty());
    }
}

proof fn lemma_ranked_ms_is_below(units: UnitsView, order: Seq<Seq<char>>, r: int, m: int)
    requires
        r >= 0,
        0 <= m <= units.len(),
    ensures
        ranked_ms(units, order, r, m) == below_ms(units, order, r, m),
    decreases m,
{
    if m > 0 {
        lemma_ranked_ms_is_below(units, order, r, m - 1);
        lemma_ranked_ms_step(units, order, r, m);
    } else {
        lemma_ranked_ms_zero(units, order, r);
    }
}

proof fn lemma_below_ms_all(units: UnitsView, order: Seq<Seq<char>>, m: int)
    requires
        0 <= m <= units.len(),
    ensures
        below_ms(units, order, (order.len() + 1) as int, m) == unit_ms(units.take(m)),
    decreases m,
{
    if m > 0 {
        lemma_below_ms_all(units, order, m - 1);
        lemma_rank_range(order, units[m - 1].0, 0);
        assert(units.take(m).drop_last() =~= units.take(m - 1));
    } else {
        assert(units.take(0) =~= Seq::<(Seq<char>, Seq<Seq<char>>)>::empty());
    }
}

/// The units in target order hold exactly the units' lines.
proof fn lemma_target_ms(units: UnitsView, order: Seq<Seq<char>>)
    ensures
        flat(units, target_s(units, order)).to_multiset() == unit_ms(units),
{
    lemma_ranked_ms(units, order, (order.len() + 1) as int);
    lemma_ranked_ms_is_below(units, order, (order.len() + 1) as int, units.len() as int);
    lemma_below_ms_all(units, order, units.len() as int);
    assert(units.take(units.len() as int) =~= units);
}

/// Placing puts every pinned line and every unit line exactly once.
proof fn lemma_place_ms(n: int, orph: IndexedLines, fl: Seq<Seq<char>>, idx: int, o: int, u: int)
    requires
        increasing_below(orph, n),
        0 <= idx <= n,
        0 <= o <= orph.len(),
        0 <= u <= fl.len(),
        o < orph.len() ==> orph[o].0 >= idx,
        n - idx == (orph.len() - o) + (fl.len() - u),
    ensures
        place_from(n, orph, fl, idx, o, u).to_multiset() == texts(orph.skip(o)).to_multiset().add(
            fl.skip(u).to_multiset(),
        ),
    decreases n - idx,
{
    broadcast use vstd::seq_lib::lemma_multiset_commutative, vstd::seq_lib::group_to_multiset_ensures, vstd::multiset::group_multiset_axioms;

    if idx == n {
        assert(orph.skip(o) =~= Seq::<(int, Seq<char>)>::empty());
        assert(fl.skip(u) =~= Seq::<Seq<char>>::empty());
        assert(texts(orph.skip(o)) =~= Seq::<Seq<char>>::empty());
        assert(Seq::<Seq<char>>::empty().to_multiset() =~= Multiset::<Seq<char>>::empty());
    } else if o < orph.len() && orph[o].0 == idx {
        if o + 1 < orph.len() {
            assert(orph[o].0 < orph[o + 1].0);
        }
        lemma_place_ms(n, orph, fl, idx + 1, o + 1, u);
        assert(texts(orph.skip(o)) =~= seq![orph[o].1] + texts(orph.skip(o + 1)));
    } else {
        if o < orph.len() {
            lemma_increasing_len(orph, o, idx + 1, n);
        }
        assert(u < fl.len());
        lemma_place_ms(n, orph, fl, idx + 1, o, u + 1);
        assert(fl.skip(u) =~= seq![fl[u]] + fl.skip(u + 1));
    }
}

/// The pinned lines of a scanned region are in increasing index order.
proof fn lemma_pinned_increasing(st: ScanView, n: int)
    requires
        scan_ok(st, n),
    ensures
        increasing_below(pinned_s(st), n),
        pinned_s(st).len() + unit_lines(st.1) == n,
{
    let a = st.2;
    let b = st.0;
    let v = a + b;
    assert forall|i: int, j: int| 0 <= i < j < v.len() implies (#[trigger] v[i]).0 < (#[trigger] v[j]).0 by {
        if j < a.len() {
        } else if i >= a.len() {
            assert(v[i] == b[i - a.len()] && v[j] == b[j - a.len()]);
        } else {
            assert(v[i] == a[i] && v[j] == b[j - a.len()]);
        }
    }
    assert forall|i: int| 0 <= i < v.len() implies 0 <= (#[trigger] v[i]).0 < n by {
        if i >= a.len() {
            assert(v[i] == b[i - a.len()]);
        }
    }
}

/// Reordering only moves lines: the reordered region holds exactly the
/// lines of the region it was given, each as many times as before.
pub proof fn law_reorder_permutes_lines(
    ls: Seq<Seq<char>>,
    keys: Seq<Option<Seq<char>>>,
    att: Seq<bool>,
    co: Seq<bool>,
    order: Seq<Seq<char>>,
)
    requires
        keys.len() == ls.len(),
        att.len() == ls.len(),
        co.len() == ls.len(),
    ensures
        reorder_s(ls, keys, att, co, order).to_multiset() == ls.to_multiset(),
{
    broadcast use vstd::seq_lib::group_to_multiset_ensures, vstd::multiset::group_multiset_axioms;

    let n = ls.len() as int;
    let st = scan_s(ls, keys, att, co, n);
    lemma_scan_ok(ls, keys, att, co, n);
    lemma_scan_ms(ls, keys, att, co, n);
    assert(ls.take(n) =~= ls);
    let fl = flat(st.1, target_s(st.1, order));
    lemma_target_lines(st.1, order);
    lemma_target_ms(st.1, order);
    let pv = pinned_s(st);
    lemma_pinned_increasing(st, n);
    lemma_place_ms(n, pv, fl, 0, 0, 0);
    assert(pv.skip(0) =~= pv);
    assert(fl.skip(0) =~= fl);
    lemma_texts_add(st.2, st.0);
    vstd::seq_lib::lemma_multiset_commutative(texts(st.2), texts(st.0));
    assert(reorder_s(ls, keys, att, co, order).to_multiset() =~= ls.to_multiset());
}

/// Whether a line is pinned whatever follows it: a line that is neither
/// blank, nor a comment, nor a key line; or a full-line comment that may
/// not attach, or whose text is a commented-out assignment.
pub open spec fn pinned_line(line: Seq<char>, key: Option<Seq<char>>, att: bool, co: bool) -> bool {
    let t = trim_start_s(line);
    ||| (t.len() > 0 && t[0] != '#' && key is None)
    ||| (t.len() > 0 && t[0] == '#' && (!att || co))
}

/// Pinned lines are never taken back: the pinned lines after `m` lines
/// begin the pinned lines after `n >= m` lines.
proof fn lemma_orphans_grow(
    ls: Seq<Seq<char>>,
    keys: Seq<Option<Seq<char>>>,
    att: Seq<bool>,
    co: Seq<bool>,
    m: int,
    n: int,
)
    requires
        0 <= m <= n <= ls.len(),
        keys.len() == ls.len(),
        att.len() == ls.len(),
        co.len() == ls.len(),
    ensures
        scan_s(ls, keys, att, co, m).2.len() <= scan_s(ls, keys, att, co, n).2.len(),
        scan_s(ls, keys, att, co, n).2.take(scan_s(ls, keys, att, co, m).2.len() as int) == scan_s(
            ls,
            keys,
            att,
            co,
            m,
        ).2,
    decreases n - m,
{
    if m < n {
        lemma_orphans_grow(ls, keys, att, co, m, n - 1);
        let a = scan_s(ls, keys, att, co, m).2;
        let b = scan_s(ls, keys, att, co, n - 1).2;
        let c = scan_s(ls, keys, att, co, n).2;
        assert(c.take(b.len() as int) == b);
        assert(c.take(a.len() as int) =~= b.take(a.len() as int));
    } else {
        let a = scan_s(ls, keys, att, co, m).2;
        assert(a.take(a.len() as int) =~= a);
    }
}

/// Reordering leaves every pinned line at its place: a line that is neither
/// blank, nor a comment, nor a key line, and a full-line comment that may
/// not attach or is a commented-out assignment, keep their index.
pub proof fn law_reorder_keeps_pinned_lines(
    ls: Seq<Seq<char>>,
    keys: Seq<Option<Seq<char>>>,
    att: Seq<bool>,
    co: Seq<bool>,
    order: Seq<Seq<char>>,
    i: int,
)
    requires
        keys.len() == ls.len(),
        att.len() == ls.len(),
        co.len() == ls.len(),
        0 <= i < ls.len(),
        pinned_line(ls[i], keys[i], att[i], co[i]),
    ensures
        reorder_s(ls, keys, att, co, order).len() == ls.len(),
        reorder_s(ls, keys, att, co, order)[i] == ls[i],
{
    let n = ls.len() as int;
    let st = scan_s(ls, keys, att, co, n);
    lemma_scan_ok(ls, keys, att, co, n);
    lemma_pinned_increasing(st, n);
    let after = scan_s(ls, keys, att, co, i + 1).2;
    assert(after.len() > 0 && after.last() == (i, ls[i]));
    lemma_orphans_grow(ls, keys, att, co, i + 1, n);
    let k = after.len() - 1;
    let pv = pinned_s(st);
    assert(st.2.take(after.len() as int)[k] == after[k]);
    assert(pv[k] == st.2[k]);
    assert(pv[k] == (i, ls[i]));
    let fl = flat(st.1, target_s(st.1, order));
    lemma_place_pinned(n, pv, fl, 0, 0, 0, k);
}

/// The indices `0..m`.
pub open spec fn upto(m: int) -> Seq<int> {
    Seq::new(m as nat, |i: int| i)
}

/// The lines of all units, in file order.
pub open spec fn flat_all(units: UnitsView) -> Seq<Seq<char>> {
    flat(units, upto(units.len() as int))
}

/// Without a target order every unit has rank zero.
proof fn lemma_bucket_empty(units: UnitsView, m: int)
    requires
        0 <= m <= units.len(),
    ensures
        bucket(units, seq![], 0, m) == upto(m),
    decreases m,
{
    if m > 0 {
        lemma_bucket_empty(units, m - 1);
        assert(rank_s(seq![], units[m - 1].0) == 0);
        assert(upto(m) =~= upto(m - 1) + seq![m - 1]);
    } else {
        assert(upto(0) =~= Seq::<int>::empty());
    }
}

/// Without a target order the units keep their file order.
proof fn lemma_target_empty(units: UnitsView)
    ensures
        target_s(units, seq![]) == upto(units.len() as int),
{
    let n = units.len() as int;
    lemma_bucket_empty(units, n);
    assert(ranked(units, seq![], 0) == Seq::<int>::empty());
    assert(ranked(units, seq![], 1) == ranked(units, seq![], 0) + bucket(units, seq![], 0, n));
    assert(target_s(units, seq![]) =~= upto(n));
}

/// The lines of the first `m` units depend on those units alone.
proof fn lemma_flat_same(u1: UnitsView, u2: UnitsView, m: int)
    requires
        0 <= m <= u1.len(),
        m <= u2.len(),
        forall|j: int| 0 <= j < m ==> u1[j] == u2[j],
    ensures
        flat(u1, upto(m)) == flat(u2, upto(m)),
    decreases m,
{
    if m > 0 {
        assert(upto(m).drop_last() =~= upto(m - 1));
        lemma_flat_same(u1, u2, m - 1);
    }
}

/// All units' lines, as the units grow by one unit or the last unit by one
/// line; and how many there are.
proof fn lemma_flat_all(units: UnitsView)
    ensures
        flat_all(units).len() == unit_lines(units),
        forall|x: (Seq<char>, Seq<Seq<char>>)| #[trigger] flat_all(units.push(x)) == flat_all(units) + x.1,
        units.len() > 0 ==> forall|y: Seq<char>| #[trigger] flat_all(
            units.update(units.len() - 1, (units.last().0, units.last().1.push(y))),
        ) == flat_all(units).push(y),
    decreases units.len(),
{
    let n = units.len() as int;
    assert forall|x: (Seq<char>, Seq<Seq<char>>)| #[trigger] flat_all(units.push(x)) == flat_all(units) + x.1 by {
        let v = units.push(x);
        assert(upto(n + 1).drop_last() =~= upto(n));
        lemma_flat_same(v, units, n);
    }
    if n > 0 {
        let d = units.drop_last();
        lemma_flat_all(d);
        assert(units =~= d.push(units.last()));
        assert forall|y: Seq<char>| #[trigger] flat_all(units.update(n - 1, (units.last().0, units.last().1.push(y))))
            == flat_all(units).push(y) by {
            let v = units.update(n - 1, (units.last().0, units.last().1.push(y)));
            assert(v =~= d.push((units.last().0, units.last().1.push(y))));
            assert(flat_all(d) + units.last().1.push(y) =~= (flat_all(d) + units.last().1).push(y));
        }
        lemma_unit_lines_push(d, units.last());
    } else {
        assert(flat_all(units) == Seq::<Seq<char>>::empty());
    }
}

/// Placing one more line that is pinned at the end.
proof fn lemma_place_push_pinned(n: int, p: IndexedLines, f: Seq<Seq<char>>, x: Seq<char>, idx: int, o: int, u: int)
    requires
        increasing_below(p, n),
        0 <= idx <= n,
        0 <= o <= p.len(),
        o < p.len() ==> p[o].0 >= idx,
    ensures
        place_from(n + 1, p.push((n, x)), f, idx, o, u) == place_from(n, p, f, idx, o, u).push(x),
    decreases n - idx,
{
    let q = p.push((n, x));
    if idx == n {
        assert(o == p.len());
        assert(q[o] == (n, x));
        assert(place_from(n + 1, q, f, n + 1, o + 1, u) == Seq::<Seq<char>>::empty());
        assert(place_from(n + 1, q, f, idx, o, u) =~= seq![x]);
    } else {
        if o < p.len() {
            assert(q[o] == p[o]);
        }
        if 0 <= o < p.len() && p[o].0 == idx {
            if o + 1 < p.len() {
                assert(p[o].0 < p[o + 1].0);
            }
            lemma_place_push_pinned(n, p, f, x, idx + 1, o + 1, u);
            assert(place_from(n + 1, q, f, idx, o, u) =~= place_from(n, p, f, idx, o, u).push(x));
        } else {
            lemma_place_push_pinned(n, p, f, x, idx + 1, o, u + 1);
            assert(place_from(n + 1, q, f, idx, o, u) =~= place_from(n, p, f, idx, o, u).push(x));
        }
    }
}

/// Placing one more line that comes from the units at the end.
proof fn lemma_place_push_unit(n: int, p: IndexedLines, f: Seq<Seq<char>>, x: Seq<char>, idx: int, o: int, u: int)
    requires
        increasing_below(p, n),
        0 <= idx <= n,
        0 <= o <= p.len(),
        o < p.len() ==> p[o].0 >= idx,
        0 <= u,
        f.len() - u == (n - idx) - (p.len() - o),
    ensures
        place_from(n + 1, p, f.push(x), idx, o, u) == place_from(n, p, f, idx, o, u).push(x),
    decreases n - idx,
{
    let g = f.push(x);
    if idx == n {
        assert(o == p.len());
        assert(place_from(n + 1, p, g, n + 1, o, u + 1) == Seq::<Seq<char>>::empty());
        assert(g[u] == x);
        assert(place_from(n + 1, p, g, idx, o, u) =~= seq![x]);
    } else {
        if 0 <= o < p.len() && p[o].0 == idx {
            if o + 1 < p.len() {
                assert(p[o].0 < p[o + 1].0);
            }
            lemma_place_push_unit(n, p, f, x, idx + 1, o + 1, u);
            assert(place_from(n + 1, p, g, idx, o, u) =~= place_from(n, p, f, idx, o, u).push(x));
        } else {
            lemma_increasing_len(p, o, idx + 1, n);
            assert(u < f.len());
            assert(g[u] == f[u]);
            lemma_place_push_unit(n, p, f, x, idx + 1, o, u + 1);
            assert(place_from(n + 1, p, g, idx, o, u) =~= place_from(n, p, f, idx, o, u).push(x));
        }
    }
}

/// Whether indexed lines sit at the consecutive indices ending just before
/// `n`.
pub open spec fn ends_at(v: IndexedLines, n: int) -> bool {
    forall|j: int| 0 <= j < v.len() ==> (#[trigger] v[j]).0 == n - v.len() + j
}

/// A comment block pinned at the end of the placed lines reads the same as
/// the block taken into the units' lines.
proof fn lemma_place_block(n: int, o: IndexedLines, pd: IndexedLines, f: Seq<Seq<char>>)
    requires
        ends_at(pd, n),
        increasing_below(o, n - pd.len()),
        pd.len() <= n,
        f.len() == n - o.len() - pd.len(),
    ensures
        place_from(n, o + pd, f, 0, 0, 0) == place_from(n, o, f + texts(pd), 0, 0, 0),
    decreases pd.len(),
{
    if pd.len() == 0 {
        assert(o + pd =~= o);
        assert(f + texts(pd) =~= f);
    } else {
        let pd0 = pd.drop_last();
        let y = pd.last().1;
        assert(pd.last().0 == n - 1);
        assert(ends_at(pd0, n - 1)) by {
            assert forall|j: int| 0 <= j < pd0.len() implies (#[trigger] pd0[j]).0 == n - 1 - pd0.len() + j by {
                assert(pd0[j] == pd[j]);
            }
        }
        let v = o + pd0;
        assert(increasing_below(v, n - 1)) by {
            assert forall|a: int, b: int| 0 <= a < b < v.len() implies (#[trigger] v[a]).0 < (#[trigger] v[b]).0 by {
                if b >= o.len() {
                    assert(v[b] == pd[b - o.len()]);
                    if a >= o.len() {
                        assert(v[a] == pd[a - o.len()]);
                    }
                }
            }
            assert forall|a: int| 0 <= a < v.len() implies 0 <= (#[trigger] v[a]).0 < n - 1 by {
                if a >= o.len() {
                    assert(v[a] == pd[a - o.len()]);
                }
            }
        }
        assert(o + pd =~= v.push((n - 1, y)));
        if v.len() > 0 {
            assert(v[0].0 >= 0);
        }
        lemma_place_push_pinned(n - 1, v, f, y, 0, 0, 0);
        assert(texts(pd) =~= texts(pd0).push(y));
        assert(f + texts(pd) =~= (f + texts(pd0)).push(y));
        assert(increasing_below(o, n - 1)) by {
            assert forall|a: int| 0 <= a < o.len() implies 0 <= (#[trigger] o[a]).0 < n - 1 by {}
        }
        if o.len() > 0 {
            assert(o[0].0 >= 0);
        }
        lemma_place_push_unit(n - 1, o, f + texts(pd0), y, 0, 0, 0);
        lemma_place_block(n - 1, o, pd0, f);
    }
}

/// Placing the scanned lines in file order gives the lines read: the
/// pending block sits at the end, and the pinned lines with the units'
/// lines in file order rebuild the region read so far.
proof fn lemma_scan_rebuilds(
    ls: Seq<Seq<char>>,
    keys: Seq<Option<Seq<char>>>,
    att: Seq<bool>,
    co: Seq<bool>,
    n: int,
)
    requires
        0 <= n <= ls.len(),
        keys.len() == ls.len(),
        att.len() == ls.len(),
        co.len() == ls.len(),
    ensures
        ends_at(scan_s(ls, keys, att, co, n).0, n),
        ls.take(n) == place_from(
            n,
            pinned_s(scan_s(ls, keys, att, co, n)),
            flat_all(scan_s(ls, keys, att, co, n).1),
            0,
            0,
            0,
        ),
    decreases n,
{
    if n == 0 {
        assert(ls.take(0) =~= Seq::<Seq<char>>::empty());
    } else {
        let m = n - 1;
        lemma_scan_rebuilds(ls, keys, att, co, m);
        lemma_scan_ok(ls, keys, att, co, m);
        let st = scan_s(ls, keys, att, co, m);
        let st2 = scan_s(ls, keys, att, co, n);
        assert(st2 == step_s(st, m, ls[m], keys[m], att[m], co[m]));
        let (pending, units, orphans, last) = st;
        let line = ls[m];
        let t = trim_start_s(line);
        let pv = pinned_s(st);
        let fa = flat_all(units);
        lemma_pinned_increasing(st, m);
        lemma_flat_all(units);
        assert(ls.take(n) =~= ls.take(m).push(line));
        if pv.len() > 0 {
            assert(pv[0].0 >= 0);
        }
        let pin = orphans + pending + seq![(m, line)];
        assert(pin =~= pv.push((m, line)));
        let is_pin = if t.len() == 0 {
            pending.len() > 0
        } else if t[0] == '#' {
            !(att[m] && !co[m])
        } else {
            keys[m] is None
        };
        if is_pin {
            assert(st2 == (Seq::<(int, Seq<char>)>::empty(), units, pin, false));
            assert(pinned_s(st2) =~= pin);
            lemma_place_push_pinned(m, pv, fa, line, 0, 0, 0);
        } else if t.len() == 0 {
            assert(pending.len() == 0);
            assert(pv =~= orphans);
            if last && units.len() > 0 {
                let k = units.len() - 1;
                let u2 = units.update(k, (units[k].0, units[k].1.push(line)));
                assert(st2 == (pending, u2, orphans, last));
                assert(units.last() == units[k]);
                assert(flat_all(u2) == fa.push(line));
                assert(pinned_s(st2) =~= pv);
                lemma_place_push_unit(m, pv, fa, line, 0, 0, 0);
            } else {
                assert(st2 == (pending, units, orphans.push((m, line)), last));
                assert(pinned_s(st2) =~= pv.push((m, line)));
                lemma_place_push_pinned(m, pv, fa, line, 0, 0, 0);
            }
        } else if t[0] == '#' {
            let p2 = pending.push((m, line));
            assert(st2 == (p2, units, orphans, last));
            assert(pinned_s(st2) =~= pv.push((m, line)));
            lemma_place_push_pinned(m, pv, fa, line, 0, 0, 0);
            assert forall|j: int| 0 <= j < p2.len() implies (#[trigger] p2[j]).0 == n - p2.len() + j by {
                if j < pending.len() {
                    assert(p2[j] == pending[j]);
                }
            }
        } else {
            let k = keys[m]->0;
            let u2 = units.push((k, texts(pending).push(line)));
            assert(st2 == (Seq::<(int, Seq<char>)>::empty(), u2, orphans, true));
            assert(pinned_s(st2) =~= orphans);
            assert(flat_all(u2) == fa + texts(pending).push(line));
            assert(fa + texts(pending).push(line) =~= (fa + texts(pending)).push(line));
            assert(increasing_below(orphans, m - pending.len())) by {
                assert forall|a: int| 0 <= a < orphans.len() implies 0 <= (#[trigger] orphans[a]).0 < m - pending.len() by {
                    if pending.len() > 0 {
                        assert(orphans[a].0 < pending[0].0);
                    } else {
                        assert(pv[a] == orphans[a]);
                    }
                }
            }
            assert(increasing_below(orphans, m)) by {
                assert forall|a: int| 0 <= a < orphans.len() implies 0 <= (#[trigger] orphans[a]).0 < m by {}
            }
            if orphans.len() > 0 {
                assert(orphans[0].0 >= 0);
            }
            lemma_place_block(m, orphans, pending, fa);
            lemma_place_push_unit(m, orphans, fa + texts(pending), line, 0, 0, 0);
        }
    }
}

/// Reordering without a target order changes nothing.
pub proof fn law_reorder_empty_order(
    ls: Seq<Seq<char>>,
    keys: Seq<Option<Seq<char>>>,
    att: Seq<bool>,
    co: Seq<bool>,
)
    requires
        keys.len() == ls.len(),
        att.len() == ls.len(),
        co.len() == ls.len(),
    ensures
        reorder_s(ls, keys, att, co, seq![]) == ls,
{
    let n = ls.len() as int;
    let st = scan_s(ls, keys, att, co, n);
    lemma_scan_rebuilds(ls, keys, att, co, n);
    lemma_target_empty(st.1);
    assert(ls.take(n) =~= ls);
}

// ---------------------------------------------------------------------------
// Executable scanner, ordering and placing
// ---------------------------------------------------------------------------

/// The view of indexed lines.
pub open spec fn indexed_view(v: Seq<(usize, String)>) -> IndexedLines {
    v.map_values(|p: (usize, String)| (p.0 as int, p.1@))
}

/// The view of key units.
pub open spec fn units_view(v: Seq<KeyUnit>) -> UnitsView {
    v.map_values(|u: KeyUnit| (u.key@, strings_view(u.lines@)))
}

/// The view of optional keys.
pub open spec fn keys_view(v: Seq<Option<String>>) -> Seq<Option<Seq<char>>> {
    v.map_values(|o: Option<String>| match o {
        Some(s) => Some(s@),
        None => None,
    })
}

fn pin_all(orphans: &mut Vec<(usize, String)>, pending: &mut Vec<(usize, String)>, idx: usize, line: &String)
    ensures
        indexed_view(final(orphans)@) == indexed_view(old(orphans)@) + indexed_view(old(pending)@) + seq![(idx as int, line@)],
        final(pending)@.len() == 0,
{
    let ghost a = indexed_view(orphans@);
    let ghost b = indexed_view(pending@);
    orphans.append(pending);
    let l = line.clone();
    orphans.push((idx, l));
    assert(indexed_view(orphans@) =~= a + b + seq![(idx as int, line@)]);
}

/// Split the region into key units (in file order) and pinned lines (with
/// their index), leaving what is still pending.
fn scan(
    lines: &Vec<String>,
    keys: &Vec<Option<String>>,
    attaches: &Vec<bool>,
    commented_out: &Vec<bool>,
) -> (r: (Vec<(usize, String)>, Vec<KeyUnit>, Vec<(usize, String)>))
    requires
        keys@.len() == lines@.len(),
        attaches@.len() == lines@.len(),
        commented_out@.len() == lines@.len(),
    ensures
        ({
            let st = scan_s(strings_view(lines@), keys_view(keys@), attaches@, commented_out@, lines@.len() as int);
            &&& indexed_view(r.0@) == st.0
            &&& units_view(r.1@) == st.1
            &&& indexed_view(r.2@) == st.2
        }),
{
    let ghost lv = strings_view(lines@);
    let ghost kv = keys_view(keys@);
    let mut pending: Vec<(usize, String)> = Vec::new();
    let mut units: Vec<KeyUnit> = Vec::new();
    let mut orphans: Vec<(usize, String)> = Vec::new();
    let mut last = false;
    let mut i: usize = 0;
    while i < lines.len()
        invariant
            i <= lines.len(),
            keys@.len() == lines@.len(),
            attaches@.len() == lines@.len(),
            commented_out@.len() == lines@.len(),
            lv == strings_view(lines@),
            kv == keys_view(keys@),
            ({
                let st = scan_s(lv, kv, attaches@, commented_out@, i as int);
                &&& indexed_view(pending@) == st.0
                &&& units_view(units@) == st.1
                &&& indexed_view(orphans@) == st.2
                &&& last == st.3
            }),
        decreases lines.len() - i,
    {
        let line = &lines[i];
        let t = trim_start(&chars_of(line.as_str()));
        assert(lv[i as int] == line@);
        let ghost st = scan_s(lv, kv, attaches@, commented_out@, i as int);
        if t.len() == 0 {
            if pending.len() == 0 {
                if last && units.len() > 0 {
                    let mut u = units.pop().unwrap();
                    let ghost uv = units_view(units@);
                    let ghost before = strings_view(u.lines@);
                    u.lines.push(line.clone());
                    assert(strings_view(u.lines@) =~= before.push(line@));
                    units.push(u);
                    assert(units_view(units@) =~= st.1.update(st.1.len() - 1, (st.1[st.1.len() - 1].0, st.1[st.1.len() - 1].1.push(line@))));
                } else {
                    let ghost before = indexed_view(orphans@);
                    orphans.push((i, line.clone()));
                    assert(indexed_view(orphans@) =~= before.push((i as int, line@)));
                }
            } else {
                pin_all(&mut orphans, &mut pending, i, line);
                last = false;
                assert(indexed_view(pending@) =~= seq![]);
            }
        } else if t[0] == '#' {
            if attaches[i] && !commented_out[i] {
                let ghost before = indexed_view(pending@);
                pending.push((i, line.clone()));
                assert(indexed_view(pending@) =~= before.push((i as int, line@)));
            } else {
                pin_all(&mut orphans, &mut pending, i, line);
                last = false;
                assert(indexed_view(pending@) =~= seq![]);
            }
        } else {
            match &keys[i] {
                Some(k) => {
                    let mut ul: Vec<String> = Vec::new();
                    let mut j: usize = 0;
                    while j < pending.len()
                        invariant
                            j <= pending.len(),
                            strings_view(ul@) == texts(indexed_view(pending@)).take(j as int),
                        decreases pending.len() - j,
                    {
                        let ghost before = strings_view(ul@);
                        ul.push(pending[j].1.clone());
                        assert(texts(indexed_view(pending@))[j as int] == pending@[j as int].1@);
                        assert(strings_view(ul@) =~= before.push(pending@[j as int].1@));
                        assert(texts(indexed_view(pending@)).take(j + 1) =~= texts(indexed_view(pending@)).take(j as int).push(pending@[j as int].1@));
                        j = j + 1;
                    }
                    assert(texts(indexed_view(pending@)).take(pending@.len() as int) =~= texts(indexed_view(pending@)));
                    let ghost before = strings_view(ul@);
                    ul.push(line.clone());
                    assert(strings_view(ul@) =~= before.push(line@));
                    assert(strings_view(ul@) =~= texts(indexed_view(pending@)).push(line@));
                    let ghost uvb = units_view(units@);
                    let unit = KeyUnit { key: k.clone(), lines: ul };
                    units.push(unit);
                    assert(units_view(units@) =~= uvb.push((k@, texts(indexed_view(pending@)).push(line@))));
                    assert(kv[i as int] == Some(k@));
                    pending = Vec::new();
                    assert(indexed_view(pending@) =~= seq![]);
                    last = true;
                },
                None => {
                    assert(kv[i as int] is None);
                    pin_all(&mut orphans, &mut pending, i, line);
                    last = false;
                    assert(indexed_view(pending@) =~= seq![]);
                },
            }
        }
        i = i + 1;
    }
    (pending, units, orphans)
}

/// The position of `k` in the order, or the order's length.
fn rank_of(order: &Vec<String>, k: &String) -> (r: usize)
    ensures
        r == rank_s(strings_view(order@), k@),
{
    let ghost ov = strings_view(order@);
    let kc = chars_of(k.as_str());
    let mut j: usize = 0;
    while j < order.len()
        invariant
            j <= order.len(),
            ov == strings_view(order@),
            kc@ == k@,
            rank_s(ov, k@) == rank_from(ov, k@, j as int),
        decreases order.len() - j,
    {
        if eq_chars(&chars_of(order[j].as_str()), &kc) {
            return j;
        }
        j = j + 1;
    }
    j
}

/// The unit indices in target order.
fn target_order(units: &Vec<KeyUnit>, order: &Vec<String>) -> (r: Vec<usize>)
    ensures
        r@.map_values(|i: usize| i as int) == target_s(units_view(units@), strings_view(order@)),
{
    let ghost uv = units_view(units@);
    let ghost ov = strings_view(order@);
    let mut ranks: Vec<usize> = Vec::new();
    let mut i: usize = 0;
    while i < units.len()
        invariant
            i <= units.len(),
            uv == units_view(units@),
            ov == strings_view(order@),
            ranks@.len() == i,
            forall|j: int| 0 <= j < i ==> ranks@[j] as int == rank_s(ov, #[trigger] uv[j].0),
        decreases units.len() - i,
    {
        ranks.push(rank_of(order, &units[i].key));
        i = i + 1;
    }
    let mut seq_out: Vec<usize> = Vec::new();
    let mut r: usize = 0;
    let mut done = false;
    while !done
        invariant
            r <= order.len(),
            uv == units_view(units@),
            ov == strings_view(order@),
            ranks@.len() == units.len(),
            forall|j: int| 0 <= j < units.len() ==> ranks@[j] as int == rank_s(ov, #[trigger] uv[j].0),
            !done ==> seq_out@.map_values(|i: usize| i as int) == ranked(uv, ov, r as int),
            done ==> seq_out@.map_values(|i: usize| i as int) == ranked(uv, ov, (ov.len() + 1) as int),
        decreases order.len() - r + (if done { 0int } else { 1int }),
    {
        let ghost base = seq_out@.map_values(|i: usize| i as int);
        let mut m: usize = 0;
        while m < units.len()
            invariant
                m <= units.len(),
                ranks@.len() == units.len(),
                uv == units_view(units@),
                forall|j: int| 0 <= j < units.len() ==> ranks@[j] as int == rank_s(ov, #[trigger] uv[j].0),
                seq_out@.map_values(|i: usize| i as int) == base + bucket(uv, ov, r as int, m as int),
            decreases units.len() - m,
        {
            let ghost before = seq_out@;
            if ranks[m] == r {
                seq_out.push(m);
                assert(seq_out@.map_values(|i: usize| i as int) =~= before.map_values(|i: usize| i as int).push(m as int));
            }
            assert(seq_out@.map_values(|i: usize| i as int) =~= base + bucket(uv, ov, r as int, m + 1));
            m = m + 1;
        }
        assert(uv.len() == units.len());
        if r == order.len() {
            done = true;
        } else {
            r = r + 1;
        }
    }
    seq_out
}

/// The lines of the units in the given order.
fn flatten(units: &Vec<KeyUnit>, idx: &Vec<usize>) -> (r: Vec<String>)
    requires
        forall|i: int| 0 <= i < idx@.len() ==> (#[trigger] idx@[i]) < units@.len(),
    ensures
        strings_view(r@) == flat(units_view(units@), idx@.map_values(|i: usize| i as int)),
{
    let ghost uv = units_view(units@);
    let ghost iv = idx@.map_values(|i: usize| i as int);
    let mut out: Vec<String> = Vec::new();
    let mut k: usize = 0;
    while k < idx.len()
        invariant
            k <= idx.len(),
            uv == units_view(units@),
            iv == idx@.map_values(|i: usize| i as int),
            forall|i: int| 0 <= i < idx@.len() ==> (#[trigger] idx@[i]) < units@.len(),
            strings_view(out@) == flat(uv, iv.take(k as int)),
        decreases idx.len() - k,
    {
        let u = &units[idx[k]];
        let ghost base = strings_view(out@);
        let mut j: usize = 0;
        while j < u.lines.len()
            invariant
                j <= u.lines.len(),
                strings_view(out@) == base + strings_view(u.lines@).take(j as int),
            decreases u.lines.len() - j,
        {
            let ghost before = strings_view(out@);
            out.push(u.lines[j].clone());
            assert(strings_view(out@) =~= before.push(u.lines@[j as int]@));
            assert(strings_view(u.lines@).take(j + 1) =~= strings_view(u.lines@).take(j as int).push(u.lines@[j as int]@));
            assert(strings_view(out@) =~= base + strings_view(u.lines@).take(j + 1));
            j = j + 1;
        }
        assert(strings_view(u.lines@).take(u.lines.len() as int) =~= strings_view(u.lines@));
        assert(iv.take(k + 1).drop_last() =~= iv.take(k as int));
        assert(uv[iv[k as int]].1 == strings_view(u.lines@));
        k = k + 1;
    }
    assert(iv.take(idx.len() as int) =~= iv);
    out
}

/// Reorder the key units of a region so they follow `order`, leaving pinned
/// lines where they are.
///
/// Each line comes classified: `keys[i]` is the key of a key line (`None`
/// for any other line); `attaches[i]` tells whether a full-line comment may
/// attach to a key there; `commented_out[i]` whether its comment text is a
/// commented-out assignment, which never attaches and breaks the comment
/// block above it. Keys the order lists come first, by their first position
/// in it; the others follow in file order. A comment block still waiting
/// for a key at the end of the region stays where it is.
pub fn reorder_region(
    lines: &Vec<String>,
    keys: &Vec<Option<String>>,
    attaches: &Vec<bool>,
    commented_out: &Vec<bool>,
    order: &Vec<String>,
) -> (out: Vec<String>)
    requires
        keys@.len() == lines@.len(),
        attaches@.len() == lines@.len(),
        commented_out@.len() == lines@.len(),
    ensures
        strings_view(out@) == reorder_s(strings_view(lines@), keys_view(keys@), attaches@, commented_out@, strings_view(order@)),
        out@.len() == lines@.len(),
        forall|k: int| #![trigger pinned_s(scan_s(strings_view(lines@), keys_view(keys@), attaches@, commented_out@, lines@.len() as int))[k]]
            0 <= k < pinned_s(scan_s(strings_view(lines@), keys_view(keys@), attaches@, commented_out@, lines@.len() as int)).len() ==> {
                let p = pinned_s(scan_s(strings_view(lines@), keys_view(keys@), attaches@, commented_out@, lines@.len() as int))[k];
                0 <= p.0 < out@.len() && out@[p.0]@ == p.1
            },
{
    let ghost lv = strings_view(lines@);
    let ghost kv = keys_view(keys@);
    let ghost n = lines@.len() as int;
    let (mut pending, units, mut orphans) = scan(lines, keys, attaches, commented_out);
    let ghost st = scan_s(lv, kv, attaches@, commented_out@, n);
    let ghost uv = st.1;
    let ghost ov = pinned_s(st);
    let ghost o0 = indexed_view(orphans@);
    let ghost p0 = indexed_view(pending@);
    orphans.append(&mut pending);
    assert(indexed_view(orphans@) =~= o0 + p0);
    proof {
        lemma_scan_ok(lv, kv, attaches@, commented_out@, n);
        lemma_pinned_increasing(st, n);
    }
    let idx = target_order(&units, order);
    proof {
        let t = target_s(uv, strings_view(order@));
        assert forall|i: int| 0 <= i < idx@.len() implies (#[trigger] idx@[i]) < units@.len() by {
            lemma_target_range(uv, strings_view(order@), (strings_view(order@).len() + 1) as int);
            assert(idx@.map_values(|i: usize| i as int)[i] == idx@[i] as int);
        }
        lemma_target_lines(uv, strings_view(order@));
    }
    let fl = flatten(&units, &idx);
    let ghost flv = strings_view(fl@);
    assert(flv.len() + ov.len() == n);
    let mut out: Vec<String> = Vec::new();
    let mut o: usize = 0;
    let mut u: usize = 0;
    let mut p: usize = 0;
    while p < lines.len()
        invariant
            p <= lines.len(),
            n == lines@.len(),
            indexed_view(orphans@) == ov,
            strings_view(fl@) == flv,
            increasing_below(ov, n),
            flv.len() + ov.len() == n,
            p == o + u,
            o <= ov.len(),
            o < ov.len() ==> ov[o as int].0 >= p,
            strings_view(out@) + place_from(n, ov, flv, p as int, o as int, u as int) == place_from(n, ov, flv, 0, 0, 0),
        decreases lines.len() - p,
    {
        let ghost before = strings_view(out@);
        if o < orphans.len() && orphans[o].0 == p {
            assert(ov[o as int] == (orphans@[o as int].0 as int, orphans@[o as int].1@));
            out.push(orphans[o].1.clone());
            proof {
                if o + 1 < ov.len() {
                    assert(ov[o as int].0 < ov[o + 1].0);
                }
            }
            assert(strings_view(out@) =~= before.push(ov[o as int].1));
            assert(place_from(n, ov, flv, p as int, o as int, u as int) == seq![ov[o as int].1] + place_from(n, ov, flv, p + 1, o + 1, u as int));
            assert(strings_view(out@) + place_from(n, ov, flv, p + 1, o + 1, u as int) =~= before + place_from(n, ov, flv, p as int, o as int, u as int));
            o = o + 1;
        } else {
            proof {
                lemma_increasing_len(ov, o as int, p as int, n);
                if o < ov.len() {
                    assert(ov[o as int].0 != p);
                    lemma_increasing_len(ov, o as int, p + 1, n);
                }
            }
            out.push(fl[u].clone());
            assert(strings_view(out@) =~= before.push(flv[u as int]));
            assert(place_from(n, ov, flv, p as int, o as int, u as int) == seq![flv[u as int]] + place_from(n, ov, flv, p + 1, o as int, u + 1));
            assert(strings_view(out@) + place_from(n, ov, flv, p + 1, o as int, u + 1) =~= before + place_from(n, ov, flv, p as int, o as int, u as int));
            u = u + 1;
        }
        p = p + 1;
    }
    proof {
        assert(place_from(n, ov, flv, p as int, o as int, u as int) =~= seq![]);
        assert(strings_view(out@) =~= place_from(n, ov, flv, 0, 0, 0));
        lemma_place_len(n, ov, flv, 0, 0, 0);
        assert forall|k: int| #![trigger ov[k]] 0 <= k < ov.len() implies {
            let q = ov[k];
            0 <= q.0 < out@.len() && out@[q.0]@ == q.1
        } by {
            lemma_place_pinned(n, ov, flv, 0, 0, 0, k);
            assert(strings_view(out@)[ov[k].0] == out@[ov[k].0]@);
        }
    }
    out
}

proof fn lemma_target_range(units: UnitsView, order: Seq<Seq<char>>, r: int)
    requires
        r >= 0,
    ensures
        forall|i: int| 0 <= i < ranked(units, order, r).len() ==> 0 <= #[trigger] ranked(units, order, r)[i] < units.len(),
    decreases r,
{
    if r > 0 {
        lemma_target_range(units, order, r - 1);
        lemma_bucket_flat(units, order, r - 1, units.len() as int);
        let a = ranked(units, order, r - 1);
        let b = bucket(units, order, r - 1, units.len() as int);
        assert forall|i: int| 0 <= i < (a + b).len() implies 0 <= #[trigger] (a + b)[i] < units.len() by {
            if i < a.len() {
                assert((a + b)[i] == a[i]);
            } else {
                assert((a + b)[i] == b[i - a.len()]);
            }
        }
    }
}

} // verus!
