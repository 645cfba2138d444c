//! Lexicographic order on text and sorted, duplicate-free key lists.
//!
//! Text is compared character by character by code point, which for UTF-8
//! strings is the same order as comparing their bytes.

use vstd::prelude::*;

verus! {

/// `a` sorts before `b` when they first differ at or after index `i`.
pub open spec fn lex_from(a: Seq<char>, b: Seq<char>, i: int) -> bool
    decreases a.len() - i,
{
    if i < 0 {
        false
    } else if i >= a.len() {
        i < b.len()
    } else if i >= b.len() {
        false
    } else if a[i] != b[i] {
        (a[i] as int) < (b[i] as int)
    } else {
        lex_from(a, b, i + 1)
    }
}

/// Strict lexicographic order on character sequences.
pub open spec fn lex_lt(a: Seq<char>, b: Seq<char>) -> bool {
    lex_from(a, b, 0)
}

/// Every element sorts strictly before the next ones.
pub open spec fn strictly_sorted(l: Seq<Seq<char>>) -> bool {
    forall|i: int, j: int| 0 <= i < j < l.len() ==> lex_lt(#[trigger] l[i], #[trigger] l[j])
}

/// `l` lists the elements of `s` in strictly increasing order.
pub open spec fn is_sorted_listing(l: Seq<Seq<char>>, s: Set<Seq<char>>) -> bool {
    strictly_sorted(l) && l.to_set() == s
}

/// The sorted listing of a finite set of keys.
pub open spec fn sorted_list(s: Set<Seq<char>>) -> Seq<Seq<char>> {
    choose|l: Seq<Seq<char>>| is_sorted_listing(l, s)
}

pub proof fn lemma_lex_irreflexive(a: Seq<char>, i: int)
    requires
        0 <= i,
    ensures
        !lex_from(a, a, i),
    decreases a.len() - i,
{
    if i < a.len() {
        lemma_lex_irreflexive(a, i + 1);
    }
}

pub proof fn lemma_lex_asymmetric(a: Seq<char>, b: Seq<char>, i: int)
    requires
        0 <= i,
        lex_from(a, b, i),
    ensures
        !lex_from(b, a, i),
    decreases a.len() - i,
{
    if i < a.len() && i < b.len() && a[i] == b[i] {
        lemma_lex_asymmetric(a, b, i + 1);
    }
}

pub proof fn lemma_lex_transitive(a: Seq<char>, b: Seq<char>, c: Seq<char>, i: int)
    requires
        0 <= i,
        lex_from(a, b, i),
        lex_from(b, c, i),
    ensures
        lex_from(a, c, i),
    decreases a.len() - i,
{
    if i < a.len() && i < b.len() && i < c.len() && a[i] == b[i] && b[i] == c[i] {
        lemma_lex_transitive(a, b, c, i + 1);
    }
}

pub proof fn lemma_lex_total(a: Seq<char>, b: Seq<char>, i: int)
    requires
        0 <= i <= a.len(),
        i <= b.len(),
        a.take(i) == b.take(i),
        a != b,
    ensures
        lex_from(a, b, i) || lex_from(b, a, i),
    decreases a.len() - i,
{
    if i == a.len() && i == b.len() {
        assert(a =~= a.take(i));
        assert(b =~= b.take(i));
    } else if i < a.len() && i < b.len() && a[i] == b[i] {
        assert(a.take(i + 1) =~= a.take(i).push(a[i]));
        assert(b.take(i + 1) =~= b.take(i).push(b[i]));
        lemma_lex_total(a, b, i + 1);
    } else if i < a.len() && i < b.len() {
        assert(a[i] as int != b[i] as int);
    }
}

/// Two different sequences are ordered one way or the other.
pub proof fn lemma_lex_trichotomy(a: Seq<char>, b: Seq<char>)
    ensures
        a == b || lex_lt(a, b) || lex_lt(b, a),
        !(lex_lt(a, b) && lex_lt(b, a)),
        !lex_lt(a, a),
{
    lemma_lex_irreflexive(a, 0);
    if lex_lt(a, b) {
        lemma_lex_asymmetric(a, b, 0);
    }
    if a != b {
        assert(a.take(0) =~= b.take(0));
        lemma_lex_total(a, b, 0);
    }
}

/// A set has at most one strictly sorted listing.
pub proof fn lemma_sorted_listing_unique(l1: Seq<Seq<char>>, l2: Seq<Seq<char>>, s: Set<Seq<char>>)
    requires
        is_sorted_listing(l1, s),
        is_sorted_listing(l2, s),
    ensures
        l1 == l2,
    decreases l1.len(),
{
    if l1.len() == 0 {
        if l2.len() > 0 {
            assert(l2.to_set().contains(l2[0]));
            assert(!l1.to_set().contains(l2[0]));
        }
        assert(l1 =~= l2);
    } else {
        assert(l1.to_set().contains(l1.last()));
        assert(l2.len() > 0) by {
            if l2.len() == 0 {
                assert(!l2.to_set().contains(l1.last()));
            }
        }
        let m1 = l1.last();
        let m2 = l2.last();
        assert(l2.to_set().contains(m2));
        assert(l1.to_set().contains(m2));
        assert(l2.to_set().contains(m1));
        // Both lasts are the maximum of `s`.
        let j1 = choose|j: int| 0 <= j < l1.len() && l1[j] == m2;
        let j2 = choose|j: int| 0 <= j < l2.len() && l2[j] == m1;
        lemma_lex_trichotomy(m1, m2);
        if m1 != m2 {
            if j1 < l1.len() - 1 {
                assert(lex_lt(l1[j1], l1[l1.len() - 1]));
            }
            if j2 < l2.len() - 1 {
                assert(lex_lt(l2[j2], l2[l2.len() - 1]));
            }
            assert(false);
        }
        let s2 = s.remove(m1);
        let a = l1.drop_last();
        let b = l2.drop_last();
        assert forall|i: int, j: int| 0 <= i < j < a.len() implies lex_lt(#[trigger] a[i], #[trigger] a[j]) by {
            assert(lex_lt(l1[i], l1[j]));
        }
        assert forall|i: int, j: int| 0 <= i < j < b.len() implies lex_lt(#[trigger] b[i], #[trigger] b[j]) by {
            assert(lex_lt(l2[i], l2[j]));
        }
        assert forall|x: Seq<char>| a.to_set().contains(x) <==> s2.contains(x) by {
            if a.to_set().contains(x) {
                let k = choose|k: int| 0 <= k < a.len() && a[k] == x;
                assert(l1.to_set().contains(x));
                assert(lex_lt(l1[k], l1[l1.len() - 1]));
                lemma_lex_trichotomy(x, m1);
            }
            if s2.contains(x) {
                assert(l1.to_set().contains(x));
                let k = choose|k: int| 0 <= k < l1.len() && l1[k] == x;
                assert(k != l1.len() - 1);
                assert(a[k] == x);
            }
        }
        assert forall|x: Seq<char>| b.to_set().contains(x) <==> s2.contains(x) by {
            if b.to_set().contains(x) {
                let k = choose|k: int| 0 <= k < b.len() && b[k] == x;
                assert(l2.to_set().contains(x));
                assert(lex_lt(l2[k], l2[l2.len() - 1]));
                lemma_lex_trichotomy(x, m1);
            }
            if s2.contains(x) {
                assert(l2.to_set().contains(x));
                let k = choose|k: int| 0 <= k < l2.len() && l2[k] == x;
                assert(k != l2.len() - 1);
                assert(b[k] == x);
            }
        }
        assert(a.to_set() =~= s2);
        assert(b.to_set() =~= s2);
        lemma_sorted_listing_unique(a, b, s2);
        assert(l1 =~= a.push(m1));
        assert(l2 =~= b.push(m2));
    }
}

/// A sorted listing of `s` is the sorted listing of `s`.
pub proof fn lemma_sorted_list_is(l: Seq<Seq<char>>, s: Set<Seq<char>>)
    requires
        is_sorted_listing(l, s),
    ensures
        sorted_list(s) == l,
{
    let c = sorted_list(s);
    assert(is_sorted_listing(c, s));
    lemma_sorted_listing_unique(c, l, s);
}

/// Whether `a` sorts strictly before `b`.
pub fn lex_less(a: &Vec<char>, b: &Vec<char>) -> (r: bool)
    ensures
        r == lex_lt(a@, b@),
{
    let mut i: usize = 0;
    while i < a.len() && i < b.len()
        invariant
            i <= a.len(),
            i <= b.len(),
            lex_lt(a@, b@) == lex_from(a@, b@, i as int),
        decreases a.len() - i,
    {
        if a[i] != b[i] {
            return a[i] < b[i];
        }
        i = i + 1;
    }
    i < b.len() && i >= a.len()
}

/// Insert `k` into a strictly sorted list, unless it is already there.
pub fn insert_sorted(v: &mut Vec<Vec<char>>, k: Vec<char>)
    requires
        strictly_sorted(old(v)@.map_values(|x: Vec<char>| x@)),
    ensures
        strictly_sorted(final(v)@.map_values(|x: Vec<char>| x@)),
        final(v)@.map_values(|x: Vec<char>| x@).to_set() == old(v)@.map_values(|x: Vec<char>| x@).to_set().insert(k@),
{
    let ghost s = v@.map_values(|x: Vec<char>| x@);
    let mut p: usize = 0;
    while p < v.len() && lex_less(&v[p], &k)
        invariant
            p <= v.len(),
            s == v@.map_values(|x: Vec<char>| x@),
            forall|j: int| 0 <= j < p ==> lex_lt(#[trigger] s[j], k@),
        decreases v.len() - p,
    {
        p = p + 1;
    }
    if p < v.len() {
        let mut same = v[p].len() == k.len();
        let mut j: usize = 0;
        while same && j < k.len()
            invariant
                p < v.len(),
                same ==> v[p as int]@.len() == k@.len(),
                j <= k.len(),
                same ==> v[p as int]@.take(j as int) == k@.take(j as int),
                !same ==> v[p as int]@ != k@,
            decreases k.len() - j,
        {
            if v[p][j] != k[j] {
                same = false;
            } else {
                assert(v[p as int]@.take(j + 1) =~= v[p as int]@.take(j as int).push(k@[j as int]));
                assert(k@.take(j + 1) =~= k@.take(j as int).push(k@[j as int]));
            }
            j = j + 1;
        }
        if same {
            assert(v[p as int]@ =~= v[p as int]@.take(j as int));
            assert(k@ =~= k@.take(j as int));
            assert(s.to_set().contains(k@)) by {
                assert(s[p as int] == k@);
            }
            assert(s.to_set().insert(k@) =~= s.to_set());
            return;
        }
    }
    let ghost kv = k@;
    v.insert(p, k);
    let ghost t = v@.map_values(|x: Vec<char>| x@);
    assert(t =~= s.insert(p as int, kv));
    proof {
        if p < s.len() {
            lemma_lex_trichotomy(s[p as int], kv);
        }
        assert forall|i: int, j: int| 0 <= i < j < t.len() implies lex_lt(#[trigger] t[i], #[trigger] t[j]) by {
            if j < p {
                assert(t[i] == s[i] && t[j] == s[j]);
            } else if j == p {
                assert(t[i] == s[i]);
            } else if i == p {
                assert(t[j] == s[j - 1]);
                if j - 1 > p {
                    assert(lex_lt(s[p as int], s[j - 1]));
                    lemma_lex_transitive(kv, s[p as int], s[j - 1], 0);
                }
            } else if i < p {
                assert(t[i] == s[i] && t[j] == s[j - 1]);
                if j - 1 > i {
                    assert(lex_lt(s[i], s[j - 1]));
                } else {
                    assert(j - 1 == i);
                    assert(lex_lt(s[i], kv));
                    assert(false);
                }
            } else {
                assert(t[i] == s[i - 1] && t[j] == s[j - 1]);
            }
        }
        assert forall|x: Seq<char>| t.to_set().contains(x) <==> s.to_set().insert(kv).contains(x) by {
            if t.to_set().contains(x) {
                let q = choose|q: int| 0 <= q < t.len() && t[q] == x;
                if q < p {
                    assert(s[q] == x);
                } else if q > p {
                    assert(s[q - 1] == x);
                }
            }
            if s.to_set().contains(x) {
                let q = choose|q: int| 0 <= q < s.len() && s[q] == x;
                if q < p {
                    assert(t[q] == x);
                } else {
                    assert(t[q + 1] == x);
                }
            }
            if x == kv {
                assert(t[p as int] == x);
            }
        }
        assert(t.to_set() =~= s.to_set().insert(kv));
    }
}

} // verus!
