//! The numeric literal grammar.
//!
//! A numeric literal is an optional sign followed by either one of the special
//! words `inf`, `infinity`, `nan` (in any letter case), or a mantissa of
//! digits with at most one decimal point and at least one digit, optionally
//! followed by an exponent marker `e`/`E`, an optional sign and at least one
//! digit.  The tokenizer classifies an unquoted run as a number exactly when
//! it matches this grammar; the literal text itself is what the value tree
//! stores.

use vstd::prelude::*;

verus! {

pub open spec fn is_digit(c: char) -> bool {
    '0' <= c && c <= '9'
}

pub open spec fn all_digits(s: Seq<char>) -> bool {
    forall|i: int| 0 <= i < s.len() ==> is_digit(#[trigger] s[i])
}

pub open spec fn is_sign(c: char) -> bool {
    c == '+' || c == '-'
}

/// `s` without its leading sign, if it has one.
pub open spec fn strip_sign(s: Seq<char>) -> Seq<char> {
    if s.len() > 0 && is_sign(s[0]) {
        s.drop_first()
    } else {
        s
    }
}

/// `c` equals the lower-case ASCII letter `l`, up to letter case.
pub open spec fn lc_eq(c: char, l: char) -> bool {
    c == l || (c as u32) + 32 == (l as u32)
}

/// `s` spells `kw` (a lower-case word) up to letter case.
pub open spec fn ci_matches(s: Seq<char>, kw: Seq<char>) -> bool {
    s.len() == kw.len() && forall|i: int| 0 <= i < s.len() ==> lc_eq(#[trigger] s[i], kw[i])
}

/// One of the special non-finite number words.
pub open spec fn is_special_number(t: Seq<char>) -> bool {
    ||| ci_matches(t, seq!['i', 'n', 'f'])
    ||| ci_matches(t, seq!['i', 'n', 'f', 'i', 'n', 'i', 't', 'y'])
    ||| ci_matches(t, seq!['n', 'a', 'n'])
}

/// The first index at or after `i` holding an exponent marker, or `s.len()`.
pub open spec fn first_e(s: Seq<char>, i: int) -> int
    decreases s.len() - i,
{
    if i < 0 || i >= s.len() {
        s.len() as int
    } else if s[i] == 'e' || s[i] == 'E' {
        i
    } else {
        first_e(s, i + 1)
    }
}

/// The first index at or after `i` holding a decimal point, or `s.len()`.
pub open spec fn first_dot(s: Seq<char>, i: int) -> int
    decreases s.len() - i,
{
    if i < 0 || i >= s.len() {
        s.len() as int
    } else if s[i] == '.' {
        i
    } else {
        first_dot(s, i + 1)
    }
}

/// Digits with at most one decimal point and at least one digit.
pub open spec fn is_mantissa(m: Seq<char>) -> bool {
    let d = first_dot(m, 0);
    if d == m.len() {
        m.len() > 0 && all_digits(m)
    } else {
        m.len() >= 2 && all_digits(m.subrange(0, d)) && all_digits(
            m.subrange(d + 1, m.len() as int),
        )
    }
}

/// An optional sign followed by at least one digit.
pub open spec fn is_exp_tail(u: Seq<char>) -> bool {
    let v = strip_sign(u);
    v.len() > 0 && all_digits(v)
}

/// A numeric literal body, after the leading sign was stripped.
pub open spec fn is_number_body(t: Seq<char>) -> bool {
    ||| is_special_number(t)
    ||| {
        let e = first_e(t, 0);
        if e == t.len() {
            is_mantissa(t)
        } else {
            is_mantissa(t.subrange(0, e)) && is_exp_tail(t.subrange(e + 1, t.len() as int))
        }
    }
}

/// The whole numeric literal grammar.
pub open spec fn is_number_literal(s: Seq<char>) -> bool {
    is_number_body(strip_sign(s))
}

/// Case-insensitive comparison of one character against a lower-case letter.
fn lc_eq_x(c: char, l: char) -> (r: bool)
    ensures
        r == lc_eq(c, l),
{
    c == l || (c as u32) + 32 == (l as u32)
}

/// Every character of `v[from..to]` is a digit.
fn digits_range(v: &Vec<char>, from: usize, to: usize) -> (r: bool)
    requires
        from <= to <= v@.len(),
    ensures
        r == all_digits(v@.subrange(from as int, to as int)),
{
    let ghost sub = v@.subrange(from as int, to as int);
    let mut i: usize = from;
    while i < to
        invariant
            from <= i <= to <= v@.len(),
            sub == v@.subrange(from as int, to as int),
            forall|k: int| 0 <= k < i - from ==> is_digit(#[trigger] sub[k]),
        decreases to - i,
    {
        let c = v[i];
        assert(sub[i - from] == c);
        if !('0' <= c && c <= '9') {
            return false;
        }
        i = i + 1;
    }
    true
}

/// `v[from..to]` spells `kw` up to letter case, where `kw` is lower case.
fn ci_matches_x(v: &Vec<char>, from: usize, to: usize, kw: &Vec<char>) -> (r: bool)
    requires
        from <= to <= v@.len(),
    ensures
        r == ci_matches(v@.subrange(from as int, to as int), kw@),
{
    let ghost sub = v@.subrange(from as int, to as int);
    if to - from != kw.len() {
        return false;
    }
    let mut i: usize = 0;
    while i < kw.len()
        invariant
            from <= to <= v@.len(),
            to - from == kw@.len(),
            i <= kw@.len(),
            sub == v@.subrange(from as int, to as int),
            forall|k: int| 0 <= k < i ==> lc_eq(#[trigger] sub[k], kw@[k]),
        decreases kw@.len() - i,
    {
        assert(sub[i as int] == v@[from + i]);
        if !lc_eq_x(v[from + i], kw[i]) {
            return false;
        }
        i = i + 1;
    }
    true
}

/// The first index in `[from, to)` holding `'e'` or `'E'`, or `to`.
fn find_e(v: &Vec<char>, from: usize, to: usize) -> (r: usize)
    requires
        from <= to <= v@.len(),
    ensures
        r == from + first_e(v@.subrange(from as int, to as int), 0),
        from <= r <= to,
{
    let ghost sub = v@.subrange(from as int, to as int);
    let mut i: usize = from;
    while i < to
        invariant
            from <= i <= to <= v@.len(),
            sub == v@.subrange(from as int, to as int),
            first_e(sub, 0) == first_e(sub, i - from),
        decreases to - i,
    {
        assert(sub[i - from] == v@[i as int]);
        let c = v[i];
        if c == 'e' || c == 'E' {
            return i;
        }
        i = i + 1;
    }
    i
}

/// The first index in `[from, to)` holding `'.'`, or `to`.
fn find_dot(v: &Vec<char>, from: usize, to: usize) -> (r: usize)
    requires
        from <= to <= v@.len(),
    ensures
        r == from + first_dot(v@.subrange(from as int, to as int), 0),
        from <= r <= to,
{
    let ghost sub = v@.subrange(from as int, to as int);
    let mut i: usize = from;
    while i < to
        invariant
            from <= i <= to <= v@.len(),
            sub == v@.subrange(from as int, to as int),
            first_dot(sub, 0) == first_dot(sub, i - from),
        decreases to - i,
    {
        assert(sub[i - from] == v@[i as int]);
        let c = v[i];
        if c == '.' {
            return i;
        }
        i = i + 1;
    }
    i
}

/// `v[from..to]` is a mantissa.
fn mantissa_x(v: &Vec<char>, from: usize, to: usize) -> (r: bool)
    requires
        from <= to <= v@.len(),
    ensures
        r == is_mantissa(v@.subrange(from as int, to as int)),
{
    let ghost sub = v@.subrange(from as int, to as int);
    let d = find_dot(v, from, to);
    if d == to {
        if to == from {
            return false;
        }
        digits_range(v, from, to)
    } else {
        assert(sub.subrange(0, d - from) == v@.subrange(from as int, d as int));
        assert(sub.subrange(d - from + 1, sub.len() as int) == v@.subrange(
            d + 1 as int,
            to as int,
        ));
        if to - from < 2 {
            return false;
        }
        digits_range(v, from, d) && digits_range(v, d + 1, to)
    }
}

/// `v[from..to]` is an exponent tail.
fn exp_tail_x(v: &Vec<char>, from: usize, to: usize) -> (r: bool)
    requires
        from <= to <= v@.len(),
    ensures
        r == is_exp_tail(v@.subrange(from as int, to as int)),
{
    let ghost sub = v@.subrange(from as int, to as int);
    let mut start = from;
    if from < to && (v[from] == '+' || v[from] == '-') {
        start = from + 1;
        assert(strip_sign(sub) == v@.subrange(start as int, to as int));
    } else {
        assert(strip_sign(sub) == v@.subrange(start as int, to as int));
    }
    if start == to {
        return false;
    }
    digits_range(v, start, to)
}

/// `v[from..to]` matches the numeric literal grammar.
pub fn is_number_run(v: &Vec<char>, from: usize, to: usize) -> (r: bool)
    requires
        from <= to <= v@.len(),
    ensures
        r == is_number_literal(v@.subrange(from as int, to as int)),
{
    let ghost whole = v@.subrange(from as int, to as int);
    let mut start = from;
    if from < to && (v[from] == '+' || v[from] == '-') {
        start = from + 1;
        assert(strip_sign(whole) == v@.subrange(start as int, to as int));
    } else {
        assert(strip_sign(whole) == v@.subrange(start as int, to as int));
    }
    let ghost body = v@.subrange(start as int, to as int);
    let kw_inf = vec!['i', 'n', 'f'];
    let kw_infinity = vec!['i', 'n', 'f', 'i', 'n', 'i', 't', 'y'];
    let kw_nan = vec!['n', 'a', 'n'];
    proof {
        assert(kw_inf@ =~= seq!['i', 'n', 'f']);
        assert(kw_infinity@ =~= seq!['i', 'n', 'f', 'i', 'n', 'i', 't', 'y']);
        assert(kw_nan@ =~= seq!['n', 'a', 'n']);
    }
    if ci_matches_x(v, start, to, &kw_inf) || ci_matches_x(v, start, to, &kw_infinity)
        || ci_matches_x(v, start, to, &kw_nan) {
        return true;
    }
    let e = find_e(v, start, to);
    if e == to {
        mantissa_x(v, start, to)
    } else {
        assert(body.subrange(0, e - start) == v@.subrange(start as int, e as int));
        assert(body.subrange(e - start + 1, body.len() as int) == v@.subrange(
            e + 1 as int,
            to as int,
        ));
        mantissa_x(v, start, e) && exp_tail_x(v, e + 1, to)
    }
}

/// A character that can appear in a numeric literal.
pub open spec fn is_number_char(c: char) -> bool {
    ||| is_digit(c)
    ||| is_sign(c)
    ||| c == '.'
    ||| c == 'e' || c == 'E'
    ||| c == 'i' || c == 'I'
    ||| c == 'n' || c == 'N'
    ||| c == 'f' || c == 'F'
    ||| c == 't' || c == 'T'
    ||| c == 'y' || c == 'Y'
    ||| c == 'a' || c == 'A'
}

pub proof fn lemma_first_e_bounds(s: Seq<char>, i: int)
    requires
        0 <= i <= s.len(),
    ensures
        i <= first_e(s, i) <= s.len(),
        forall|t: int| i <= t < first_e(s, i) ==> (#[trigger] s[t]) != 'e' && s[t] != 'E',
        first_e(s, i) < s.len() ==> s[first_e(s, i)] == 'e' || s[first_e(s, i)] == 'E',
    decreases s.len() - i,
{
    if i < s.len() && s[i] != 'e' && s[i] != 'E' {
        lemma_first_e_bounds(s, i + 1);
    }
}

pub proof fn lemma_first_dot_bounds(s: Seq<char>, i: int)
    requires
        0 <= i <= s.len(),
    ensures
        i <= first_dot(s, i) <= s.len(),
        forall|t: int| i <= t < first_dot(s, i) ==> (#[trigger] s[t]) != '.',
        first_dot(s, i) < s.len() ==> s[first_dot(s, i)] == '.',
    decreases s.len() - i,
{
    if i < s.len() && s[i] != '.' {
        lemma_first_dot_bounds(s, i + 1);
    }
}

/// Every character of a mantissa is a digit or the decimal point.
proof fn lemma_mantissa_chars(m: Seq<char>)
    requires
        is_mantissa(m),
    ensures
        m.len() > 0,
        forall|t: int| 0 <= t < m.len() ==> is_digit(#[trigger] m[t]) || m[t] == '.',
{
    lemma_first_dot_bounds(m, 0);
    let d = first_dot(m, 0);
    if d < m.len() {
        assert forall|t: int| 0 <= t < m.len() implies is_digit(#[trigger] m[t]) || m[t] == '.' by {
            if t < d {
                assert(m.subrange(0, d)[t] == m[t]);
            } else if t > d {
                assert(m.subrange(d + 1, m.len() as int)[t - d - 1] == m[t]);
            }
        }
    }
}

proof fn lemma_lc_number_char(c: char, l: char)
    requires
        lc_eq(c, l),
        l == 'i' || l == 'n' || l == 'f' || l == 't' || l == 'y' || l == 'a',
    ensures
        is_number_char(c),
{
}

/// Every character of a numeric literal is a number character: no
/// whitespace, no structural character, no quote and no backslash can occur
/// in one.
pub proof fn lemma_number_literal_chars(x: Seq<char>)
    requires
        is_number_literal(x),
    ensures
        x.len() > 0,
        forall|t: int| 0 <= t < x.len() ==> is_number_char(#[trigger] x[t]),
{
    let b = strip_sign(x);
    let off: int = if x.len() > 0 && is_sign(x[0]) {
        1
    } else {
        0
    };
    assert(b.len() == x.len() - off);
    assert forall|t: int| 0 <= t < b.len() implies b[t] == x[t + off] by {
        if off == 1 {
            assert(b[t] == x.drop_first()[t]);
        }
    }
    if is_special_number(b) {
        let kw3 = seq!['i', 'n', 'f'];
        let kw8 = seq!['i', 'n', 'f', 'i', 'n', 'i', 't', 'y'];
        let kwn = seq!['n', 'a', 'n'];
        assert(kw3[0] == 'i' && kw3[1] == 'n' && kw3[2] == 'f');
        assert(kw8[0] == 'i' && kw8[1] == 'n' && kw8[2] == 'f' && kw8[3] == 'i' && kw8[4] == 'n'
            && kw8[5] == 'i' && kw8[6] == 't' && kw8[7] == 'y');
        assert(kwn[0] == 'n' && kwn[1] == 'a' && kwn[2] == 'n');
        assert forall|t: int| 0 <= t < x.len() implies is_number_char(#[trigger] x[t]) by {
            if t >= off {
                let u = t - off;
                if off == 1 {
                    assert(b[u] == x.drop_first()[u]);
                }
                assert(x[t] == b[u]);
                if ci_matches(b, kw3) {
                    assert(lc_eq(b[u], kw3[u]));
                    lemma_lc_number_char(b[u], kw3[u]);
                } else if ci_matches(b, kw8) {
                    assert(lc_eq(b[u], kw8[u]));
                    lemma_lc_number_char(b[u], kw8[u]);
                } else {
                    assert(lc_eq(b[u], kwn[u]));
                    lemma_lc_number_char(b[u], kwn[u]);
                }
            }
        }
    } else {
        lemma_first_e_bounds(b, 0);
        let e = first_e(b, 0);
        if e == b.len() {
            lemma_mantissa_chars(b);
            assert forall|t: int| 0 <= t < x.len() implies is_number_char(#[trigger] x[t]) by {
                if t >= off {
                    assert(is_digit(b[t - off]) || b[t - off] == '.');
                }
            }
        } else {
            lemma_mantissa_chars(b.subrange(0, e));
            let u = b.subrange(e + 1, b.len() as int);
            let w = strip_sign(u);
            let off2: int = if u.len() > 0 && is_sign(u[0]) {
                1
            } else {
                0
            };
            assert(forall|t: int| 0 <= t < w.len() ==> w[t] == u[t + off2]);
            assert forall|t: int| 0 <= t < x.len() implies is_number_char(#[trigger] x[t]) by {
                if t >= off {
                    let i = t - off;
                    if i < e {
                        assert(b.subrange(0, e)[i] == b[i]);
                        assert(is_digit(b[i]) || b[i] == '.');
                    } else if i == e {
                        assert(b[i] == 'e' || b[i] == 'E');
                    } else {
                        let j = i - e - 1;
                        assert(u[j] == b[i]);
                        if j >= off2 {
                            assert(is_digit(w[j - off2]));
                        }
                    }
                }
            }
        }
    }
}

} // verus!
