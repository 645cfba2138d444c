//! Recognizing text that reads as a number: the decimal floating-point
//! syntax that `f64::from_str` accepts, so such YAML values get quoted.

use vstd::prelude::*;

use crate::text::{char_pos, chars_of, eq_chars, find_char, lower, lower_s, slice};

verus! {

/// An ASCII digit.
pub open spec fn is_digit(c: char) -> bool {
    '0' <= c && c <= '9'
}

/// Every character is a digit.
pub open spec fn all_digits(s: Seq<char>) -> bool {
    forall|i: int| 0 <= i < s.len() ==> is_digit(#[trigger] s[i])
}

/// Drop one leading `+` or `-`.
pub open spec fn drop_sign(s: Seq<char>) -> Seq<char> {
    if s.len() > 0 && (s[0] == '+' || s[0] == '-') {
        s.drop_first()
    } else {
        s
    }
}

/// Index of the first `e` or `E`, or the length.
pub open spec fn exp_pos(s: Seq<char>, i: int) -> int
    decreases s.len() - i,
{
    if i < 0 || i >= s.len() {
        s.len() as int
    } else if s[i] == 'e' || s[i] == 'E' {
        i
    } else {
        exp_pos(s, i + 1)
    }
}

/// `Digit+ | Digit+ '.' Digit* | Digit* '.' Digit+`.
pub open spec fn mantissa_ok(m: Seq<char>) -> bool {
    let d = char_pos(m, '.', 0);
    if d >= m.len() {
        m.len() > 0 && all_digits(m)
    } else {
        all_digits(m.take(d)) && all_digits(m.skip(d + 1)) && m.len() > 1
    }
}

/// Empty, or `e` (either case), an optional sign and at least one digit.
pub open spec fn exponent_ok(x: Seq<char>) -> bool {
    x.len() == 0 || (x.len() > 0 && (x[0] == 'e' || x[0] == 'E') && drop_sign(x.drop_first()).len()
        > 0 && all_digits(drop_sign(x.drop_first())))
}

/// The decimal number syntax: a mantissa and an optional exponent.
pub open spec fn number_ok(t: Seq<char>) -> bool {
    let k = exp_pos(t, 0);
    mantissa_ok(t.take(k)) && exponent_ok(t.skip(k))
}

/// `Sign? ('inf' | 'infinity' | 'nan' | Number)`, letters in any case, with
/// no surrounding whitespace.
pub open spec fn float_syntax(s: Seq<char>) -> bool {
    let t = drop_sign(s);
    let l = lower_s(t);
    l == "inf"@ || l == "infinity"@ || l == "nan"@ || number_ok(t)
}

fn digits_only(v: &Vec<char>) -> (r: bool)
    ensures
        r == all_digits(v@),
{
    let mut i: usize = 0;
    while i < v.len()
        invariant
            i <= v.len(),
            forall|j: int| 0 <= j < i ==> is_digit(#[trigger] v@[j]),
        decreases v.len() - i,
    {
        if !('0' <= v[i] && v[i] <= '9') {
            assert(!is_digit(v@[i as int]));
            return false;
        }
        i = i + 1;
    }
    true
}

fn without_sign(v: &Vec<char>) -> (out: Vec<char>)
    ensures
        out@ == drop_sign(v@),
{
    if v.len() > 0 && (v[0] == '+' || v[0] == '-') {
        let out = slice(v, 1, v.len());
        assert(out@ =~= v@.drop_first());
        out
    } else {
        slice(v, 0, v.len())
    }
}

fn find_exp(v: &Vec<char>) -> (r: usize)
    ensures
        r == exp_pos(v@, 0),
        r <= v.len(),
{
    let mut i: usize = 0;
    while i < v.len() && v[i] != 'e' && v[i] != 'E'
        invariant
            i <= v.len(),
            exp_pos(v@, 0) == exp_pos(v@, i as int),
        decreases v.len() - i,
    {
        i = i + 1;
    }
    i
}

/// Whether `value` reads as a floating-point number (`f64::from_str`
/// succeeds on it).
pub fn looks_numeric(value: &Vec<char>) -> (r: bool)
    ensures
        r == float_syntax(value@),
{
    let t = without_sign(value);
    let l = lower(&t);
    if eq_chars(&l, &chars_of("inf")) || eq_chars(&l, &chars_of("infinity")) || eq_chars(
        &l,
        &chars_of("nan"),
    ) {
        return true;
    }
    let k = find_exp(&t);
    let m = slice(&t, 0, k);
    let x = slice(&t, k, t.len());
    assert(m@ =~= t@.take(k as int));
    assert(x@ =~= t@.skip(k as int));
    let d = find_char(&m, '.', 0);
    let m_ok = if d >= m.len() {
        m.len() > 0 && digits_only(&m)
    } else {
        let a = slice(&m, 0, d);
        let b = slice(&m, d + 1, m.len());
        assert(a@ =~= m@.take(d as int));
        assert(b@ =~= m@.skip(d + 1));
        digits_only(&a) && digits_only(&b) && m.len() > 1
    };
    if !m_ok {
        return false;
    }
    if x.len() == 0 {
        return true;
    }
    if !(x[0] == 'e' || x[0] == 'E') {
        return false;
    }
    let rest = slice(&x, 1, x.len());
    assert(rest@ =~= x@.drop_first());
    let z = without_sign(&rest);
    z.len() > 0 && digits_only(&z)
}

} // verus!
