//! The number syntaxes of the OBJ reader: decimal floating-point literals as
//! `f32::from_str` accepts them, and unsigned integers as `u32::from_str`
//! accepts them.

use vstd::prelude::*;

verus! {

/// An ASCII decimal digit.
pub open spec fn is_digit(c: char) -> bool {
    '0' <= c <= '9'
}

/// `+` or `-`.
pub open spec fn is_sign(c: char) -> bool {
    c == '+' || c == '-'
}

/// The index just past the run of ASCII digits of `s` that starts at `i`.
pub open spec fn digits_end(s: Seq<char>, i: int) -> int
    decreases s.len() - i,
{
    if 0 <= i < s.len() && is_digit(s[i]) {
        digits_end(s, i + 1)
    } else {
        i
    }
}

/// `s[k..]` is an exponent: `e` or `E`, an optional sign, one or more digits.
pub open spec fn exponent_at(s: Seq<char>, k: int) -> bool {
    let d = if k + 1 < s.len() && is_sign(s[k + 1]) {
        k + 2
    } else {
        k + 1
    };
    &&& 0 <= k
    &&& d < s.len()
    &&& (s[k] == 'e' || s[k] == 'E')
    &&& digits_end(s, d) == s.len()
}

/// `s[b..]` is `( Digit+ | Digit+ '.' Digit* | Digit* '.' Digit+ ) Exp?`.
pub open spec fn number_at(s: Seq<char>, b: int) -> bool {
    let int_end = digits_end(s, b);
    let has_dot = int_end < s.len() && s[int_end] == '.';
    let frac_end = if has_dot {
        digits_end(s, int_end + 1)
    } else {
        int_end
    };
    let n_digits = if has_dot {
        frac_end - b - 1
    } else {
        frac_end - b
    };
    n_digits > 0 && (frac_end == s.len() || exponent_at(s, frac_end))
}

/// `s[b..]` spells the same ASCII word as `lower` and `upper`, its lowercase
/// and uppercase spellings, each letter in either case.
pub open spec fn word_at_ignore_case(s: Seq<char>, b: int, lower: Seq<char>, upper: Seq<char>) -> bool {
    &&& s.len() - b == lower.len()
    &&& forall|i: int| 0 <= i < lower.len() ==> (s[b + i] == lower[i] || s[b + i] == upper[i])
}

/// The text of a floating-point number, as the grammar that `f32::from_str`
/// documents gives it (`e`, `inf`, `infinity` and `nan` in either case):
/// `Sign? ( 'inf' | 'infinity' | 'nan' | Number )`.
pub open spec fn float_text(s: Seq<char>) -> bool {
    let b = if s.len() > 0 && is_sign(s[0]) {
        1int
    } else {
        0int
    };
    ||| word_at_ignore_case(s, b, seq!['i', 'n', 'f'], seq!['I', 'N', 'F'])
    ||| word_at_ignore_case(
        s,
        b,
        seq!['i', 'n', 'f', 'i', 'n', 'i', 't', 'y'],
        seq!['I', 'N', 'F', 'I', 'N', 'I', 'T', 'Y'],
    )
    ||| word_at_ignore_case(s, b, seq!['n', 'a', 'n'], seq!['N', 'A', 'N'])
    ||| number_at(s, b)
}

/// Every text of `cs` is a floating-point number.
pub open spec fn all_float_text(cs: Seq<Seq<char>>) -> bool {
    forall|i: int| 0 <= i < cs.len() ==> float_text(#[trigger] cs[i])
}

/// Every char of `s` is an ASCII digit.
pub open spec fn all_digits(s: Seq<char>) -> bool {
    forall|i: int| 0 <= i < s.len() ==> is_digit(#[trigger] s[i])
}

/// The decimal value of a run of digits.
pub open spec fn digits_value(s: Seq<char>) -> nat
    decreases s.len(),
{
    if s.len() == 0 {
        0
    } else {
        digits_value(s.drop_last()) * 10 + (s.last() as int - 48) as nat
    }
}

/// What `u32::from_str` gives: an optional `+`, then one or more ASCII
/// digits whose value fits in a `u32`.
pub open spec fn parse_u32(s: Seq<char>) -> Option<u32> {
    let d = if s.len() > 0 && s[0] == '+' {
        s.drop_first()
    } else {
        s
    };
    if d.len() > 0 && all_digits(d) && digits_value(d) <= u32::MAX {
        Some(digits_value(d) as u32)
    } else {
        None
    }
}

/// The parsed value, or 0 where `s` is not a `u32`.
pub open spec fn u32_or_zero(s: Seq<char>) -> u32 {
    match parse_u32(s) {
        Some(v) => v,
        None => 0,
    }
}

proof fn lemma_digits_end_bounds(s: Seq<char>, i: int)
    requires
        0 <= i <= s.len(),
    ensures
        i <= digits_end(s, i) <= s.len(),
        forall|j: int| i <= j < digits_end(s, i) ==> is_digit(#[trigger] s[j]),
    decreases s.len() - i,
{
    if i < s.len() && is_digit(s[i]) {
        lemma_digits_end_bounds(s, i + 1);
    }
}

proof fn lemma_digits_value_grows(s: Seq<char>, j: int)
    requires
        0 <= j <= s.len(),
    ensures
        digits_value(s.take(j)) <= digits_value(s),
    decreases s.len(),
{
    if j < s.len() {
        lemma_digits_value_grows(s.drop_last(), j);
        assert(s.drop_last().take(j) =~= s.take(j));
    } else {
        assert(s.take(j) =~= s);
    }
}

/// An optional sign: nothing, `+` or `-`.
pub open spec fn sign_text(p: Seq<char>) -> bool {
    p.len() == 0 || p == seq!['+'] || p == seq!['-']
}

/// An exponent: `e` or `E`, an optional sign, then one or more digits.
pub open spec fn exponent_text(e: Seq<char>) -> bool {
    exists|x: char, q: Seq<char>, d: Seq<char>|
        (x == 'e' || x == 'E') && sign_text(q) && d.len() > 0 && all_digits(d) && e == seq![x]
            + q + d
}

/// The decimal literal with sign `p`, integer digits `a`, a point if `dot`,
/// fraction digits `b` and exponent part `e`.
pub open spec fn decimal_literal(
    p: Seq<char>,
    a: Seq<char>,
    dot: bool,
    b: Seq<char>,
    e: Seq<char>,
) -> Seq<char> {
    p + a + (if dot {
        seq!['.']
    } else {
        Seq::empty()
    }) + b + e
}

/// The parts make a decimal literal of the `f32` grammar: a sign or none,
/// digits, then either no point and no fraction digits (with at least one
/// integer digit) or a point with at least one digit on either side, then
/// an exponent or none. Any number of digits is allowed in each place.
pub open spec fn decimal_parts(p: Seq<char>, a: Seq<char>, dot: bool, b: Seq<char>, e: Seq<char>) -> bool {
    &&& sign_text(p)
    &&& all_digits(a)
    &&& all_digits(b)
    &&& if dot {
        a.len() + b.len() > 0
    } else {
        a.len() > 0 && b.len() == 0
    }
    &&& (e.len() == 0 || exponent_text(e))
}

/// `s` is a sign or none followed by one of the words `inf`, `infinity` and
/// `nan`, in any mix of case.
pub open spec fn special_float_text(s: Seq<char>) -> bool {
    let b = if s.len() > 0 && is_sign(s[0]) {
        1int
    } else {
        0int
    };
    ||| word_at_ignore_case(s, b, seq!['i', 'n', 'f'], seq!['I', 'N', 'F'])
    ||| word_at_ignore_case(
        s,
        b,
        seq!['i', 'n', 'f', 'i', 'n', 'i', 't', 'y'],
        seq!['I', 'N', 'F', 'I', 'N', 'I', 'T', 'Y'],
    )
    ||| word_at_ignore_case(s, b, seq!['n', 'a', 'n'], seq!['N', 'A', 'N'])
}

proof fn lemma_digits_end_at(s: Seq<char>, i: int, j: int)
    requires
        0 <= i <= j <= s.len(),
        forall|k: int| i <= k < j ==> is_digit(#[trigger] s[k]),
        j == s.len() || !is_digit(s[j]),
    ensures
        digits_end(s, i) == j,
    decreases j - i,
{
    if i < j {
        lemma_digits_end_at(s, i + 1, j);
    }
}

/// Every decimal literal of the `f32` grammar is the text of a number,
/// whatever the number of digits in each part: `1`, `-0.123456`, `.5`,
/// `12.`, `6.02E+23`.
pub proof fn law_decimal_literals_are_numbers(
    p: Seq<char>,
    a: Seq<char>,
    dot: bool,
    b: Seq<char>,
    e: Seq<char>,
)
    requires
        decimal_parts(p, a, dot, b, e),
    ensures
        float_text(decimal_literal(p, a, dot, b, e)),
{
    let s = decimal_literal(p, a, dot, b, e);
    let d: Seq<char> = if dot {
        seq!['.']
    } else {
        Seq::empty()
    };
    assert(s == p + a + d + b + e);
    let start = p.len() as int;
    let int_end = start + a.len();
    let frac_start = int_end + d.len();
    let frac_end = frac_start + b.len();
    assert(s.len() == frac_end + e.len());
    assert forall|k: int| 0 <= k < a.len() implies s[start + k] == a[k] by {
        assert(s[start + k] == (p + a + d + b + e)[start + k]);
    }
    assert forall|k: int| 0 <= k < b.len() implies s[frac_start + k] == b[k] by {}
    assert forall|k: int| 0 <= k < e.len() implies s[frac_end + k] == e[k] by {}
    if dot {
        assert(s[int_end] == '.');
    }
    let mut x: char = 'e';
    let mut q: Seq<char> = Seq::empty();
    let mut ds: Seq<char> = Seq::empty();
    if e.len() > 0 {
        let (x0, q0, d0) = choose|x: char, q: Seq<char>, d: Seq<char>|
            (x == 'e' || x == 'E') && sign_text(q) && d.len() > 0 && all_digits(d) && e == seq![x]
                + q + d;
        x = x0;
        q = q0;
        ds = d0;
        assert(e[0] == x);
        assert(s[frac_end] == x);
    }
    // the sign
    if p.len() > 0 {
        assert(s[0] == p[0]);
        assert(is_sign(s[0]));
    } else if a.len() > 0 {
        assert(s[0] == a[0]);
        assert(is_digit(a[0]));
    } else if dot {
        assert(s[0] == '.');
    }
    // the integer digits
    assert forall|k: int| start <= k < int_end implies is_digit(#[trigger] s[k]) by {
        assert(s[k] == a[k - start]);
    }
    if int_end < s.len() {
        if dot {
        } else if b.len() > 0 {
        } else {
            assert(s[int_end] == e[0]);
        }
    }
    lemma_digits_end_at(s, start, int_end);
    // the fraction digits
    if dot {
        assert forall|k: int| frac_start <= k < frac_end implies is_digit(#[trigger] s[k]) by {
            assert(s[k] == b[k - frac_start]);
        }
        if frac_end < s.len() {
            assert(s[frac_end] == e[0]);
        }
        lemma_digits_end_at(s, frac_start, frac_end);
    }
    // the exponent
    if e.len() > 0 {
        let dstart = frac_end + 1 + q.len();
        assert(e == seq![x] + q + ds);
        if q.len() > 0 {
            assert(s[frac_end + 1] == e[1]);
            assert(e[1] == q[0]);
        } else {
            assert(s[frac_end + 1] == e[1]);
            assert(e[1] == ds[0]);
            assert(is_digit(ds[0]));
        }
        assert forall|k: int| dstart <= k < s.len() implies is_digit(#[trigger] s[k]) by {
            assert(s[k] == e[k - frac_end]);
            assert(e[k - frac_end] == ds[k - dstart]);
        }
        lemma_digits_end_at(s, dstart, s.len() as int);
        assert(exponent_at(s, frac_end));
    }
    assert(number_at(s, start));
}

/// Digits, a point and digits, with at least one digit on some side and
/// any number of digits on each, are the text of a number, bare or with a
/// `+` or `-` in front: `0.123456`, `-.5`, `+12.`.
pub proof fn law_point_literals(a: Seq<char>, b: Seq<char>)
    requires
        all_digits(a),
        all_digits(b),
        a.len() + b.len() > 0,
    ensures
        float_text(a + seq!['.'] + b),
        float_text(seq!['+'] + a + seq!['.'] + b),
        float_text(seq!['-'] + a + seq!['.'] + b),
{
    let none = Seq::<char>::empty();
    let plus = seq!['+'];
    let minus = seq!['-'];
    law_decimal_literals_are_numbers(none, a, true, b, none);
    law_decimal_literals_are_numbers(plus, a, true, b, none);
    law_decimal_literals_are_numbers(minus, a, true, b, none);
    assert(decimal_literal(none, a, true, b, none) =~= a + seq!['.'] + b);
    assert(decimal_literal(plus, a, true, b, none) =~= plus + a + seq!['.'] + b);
    assert(decimal_literal(minus, a, true, b, none) =~= minus + a + seq!['.'] + b);
}

/// One more fraction digit keeps a decimal literal with a point the text of
/// a number: there is no limit on the number of fraction digits.
pub proof fn law_more_fraction_digits(
    p: Seq<char>,
    a: Seq<char>,
    b: Seq<char>,
    e: Seq<char>,
    c: char,
)
    requires
        decimal_parts(p, a, true, b, e),
        is_digit(c),
    ensures
        float_text(decimal_literal(p, a, true, b, e)),
        float_text(decimal_literal(p, a, true, b.push(c), e)),
{
    assert(all_digits(b.push(c))) by {
        assert forall|k: int| 0 <= k < b.push(c).len() implies is_digit(#[trigger] b.push(c)[k]) by {
            if k < b.len() {
                assert(b.push(c)[k] == b[k]);
            }
        }
    }
    law_decimal_literals_are_numbers(p, a, true, b, e);
    law_decimal_literals_are_numbers(p, a, true, b.push(c), e);
}

/// Every text of a number that is not `inf`, `infinity` or `nan` is a
/// decimal literal of the `f32` grammar: the parts are given back.
pub proof fn law_numbers_are_decimal_literals(s: Seq<char>) -> (parts: (
    Seq<char>,
    Seq<char>,
    bool,
    Seq<char>,
    Seq<char>,
))
    requires
        float_text(s),
        !special_float_text(s),
    ensures
        decimal_parts(parts.0, parts.1, parts.2, parts.3, parts.4),
        s == decimal_literal(parts.0, parts.1, parts.2, parts.3, parts.4),
{
    let start: int = if s.len() > 0 && is_sign(s[0]) {
        1
    } else {
        0
    };
    assert(number_at(s, start));
    lemma_digits_end_bounds(s, start);
    let int_end = digits_end(s, start);
    let dot = int_end < s.len() && s[int_end] == '.';
    let frac_start = if dot {
        int_end + 1
    } else {
        int_end
    };
    lemma_digits_end_bounds(s, frac_start);
    let frac_end = if dot {
        digits_end(s, frac_start)
    } else {
        int_end
    };
    let p = s.take(start);
    let a = s.subrange(start, int_end);
    let b = s.subrange(frac_start, frac_end);
    let e = s.skip(frac_end);
    assert(sign_text(p)) by {
        if start == 1 {
            if s[0] == '+' {
                assert(p =~= seq!['+']);
            } else {
                assert(p =~= seq!['-']);
            }
        } else {
            assert(p.len() == 0);
        }
    }
    assert(all_digits(a)) by {
        assert forall|k: int| 0 <= k < a.len() implies is_digit(#[trigger] a[k]) by {
            assert(a[k] == s[start + k]);
        }
    }
    assert(all_digits(b)) by {
        assert forall|k: int| 0 <= k < b.len() implies is_digit(#[trigger] b[k]) by {
            assert(b[k] == s[frac_start + k]);
        }
    }
    if e.len() > 0 {
        assert(exponent_at(s, frac_end));
        let x = s[frac_end];
        let dstart = if frac_end + 1 < s.len() && is_sign(s[frac_end + 1]) {
            frac_end + 2
        } else {
            frac_end + 1
        };
        let q = s.subrange(frac_end + 1, dstart);
        let ds = s.subrange(dstart, s.len() as int);
        lemma_digits_end_bounds(s, dstart);
        assert(sign_text(q)) by {
            if dstart == frac_end + 2 {
                if s[frac_end + 1] == '+' {
                    assert(q =~= seq!['+']);
                } else {
                    assert(q =~= seq!['-']);
                }
            }
        }
        assert(all_digits(ds)) by {
            assert forall|k: int| 0 <= k < ds.len() implies is_digit(#[trigger] ds[k]) by {
                assert(ds[k] == s[dstart + k]);
            }
        }
        assert(e =~= seq![x] + q + ds);
        assert(exponent_text(e));
    }
    let d: Seq<char> = if dot {
        seq!['.']
    } else {
        Seq::empty()
    };
    assert(s =~= p + a + d + b + e);
    (p, a, dot, b, e)
}

/// A sign or none followed by `inf`, `infinity` or `nan`, in any mix of
/// case, is the text of a number.
pub proof fn law_special_words_are_numbers(s: Seq<char>)
    requires
        special_float_text(s),
    ensures
        float_text(s),
{
}

/// An optional `+` followed by one or more digits whose value fits in a
/// `u32` reads as that value; with `-` in front, or with no digit, it does
/// not read at all.
pub proof fn law_u32_literals(d: Seq<char>)
    requires
        d.len() > 0,
        all_digits(d),
    ensures
        digits_value(d) <= u32::MAX ==> parse_u32(d) == Some(digits_value(d) as u32),
        digits_value(d) <= u32::MAX ==> parse_u32(seq!['+'] + d) == Some(digits_value(d) as u32),
        digits_value(d) > u32::MAX ==> parse_u32(d) is None && parse_u32(seq!['+'] + d) is None,
        parse_u32(seq!['-'] + d) is None,
        parse_u32(Seq::empty()) is None,
        parse_u32(seq!['+']) is None,
{
    assert((seq!['+'] + d).drop_first() =~= d);
    assert(d[0] != '+');
    let m = seq!['-'] + d;
    assert(m[0] == '-');
    assert(!is_digit(m[0]));
    assert(seq!['+'].drop_first() =~= Seq::<char>::empty());
}

/// Whatever reads as a `u32` is an optional `+` followed by digits whose
/// value it is.
pub proof fn law_u32_read_is_digits(s: Seq<char>)
    requires
        parse_u32(s) is Some,
    ensures
        ({
            let d = if s[0] == '+' {
                s.drop_first()
            } else {
                s
            };
            &&& s.len() > 0
            &&& d.len() > 0
            &&& all_digits(d)
            &&& parse_u32(s) == Some(digits_value(d) as u32)
            &&& digits_value(d) <= u32::MAX
        }),
{
}

/// The value of a run of digits is positional: the first digit counts
/// `10^k` times, where `k` digits follow it.
pub proof fn law_digits_value_positional(c: char, d: Seq<char>)
    requires
        is_digit(c),
        all_digits(d),
    ensures
        digits_value(seq![c] + d) == (c as int - 48) * pow10(d.len()) + digits_value(d),
    decreases d.len(),
{
    if d.len() == 0 {
        assert(seq![c] + d =~= seq![c]);
        assert(seq![c].drop_last() =~= Seq::<char>::empty());
        assert(pow10(0) == 1);
        assert((c as int - 48) * 1 == c as int - 48) by (nonlinear_arith);
        assert(digits_value(seq![c]) == digits_value(seq![c].drop_last()) * 10 + (c as int - 48));
        assert(digits_value(d) == 0);
    } else {
        let init = d.drop_last();
        assert(all_digits(init)) by {
            assert forall|k: int| 0 <= k < init.len() implies is_digit(#[trigger] init[k]) by {
                assert(init[k] == d[k]);
            }
        }
        law_digits_value_positional(c, init);
        assert((seq![c] + d).drop_last() =~= seq![c] + init);
        assert((seq![c] + d).last() == d.last());
        let v = c as int - 48;
        let x = seq![c] + d;
        assert(is_digit(d.last()));
        assert(digits_value(x) == digits_value(seq![c] + init) * 10 + (d.last() as int - 48));
        assert(digits_value(d) == digits_value(init) * 10 + (d.last() as int - 48));
        assert(pow10(d.len()) == 10 * pow10(init.len()));
        assert(v * pow10(d.len()) == 10 * (v * pow10(init.len()))) by (nonlinear_arith)
            requires
                pow10(d.len()) == 10 * pow10(init.len()),
        ;
    }
}

/// `10^k`.
pub open spec fn pow10(k: nat) -> nat
    decreases k,
{
    if k == 0 {
        1
    } else {
        10 * pow10((k - 1) as nat)
    }
}

fn char_is_digit(c: char) -> (r: bool)
    ensures
        r == is_digit(c),
{
    '0' <= c && c <= '9'
}

/// The index just past the run of digits of `s` that starts at `i`.
fn skip_digits(s: &Vec<char>, i: usize) -> (r: usize)
    requires
        i <= s.len(),
    ensures
        r as int == digits_end(s@, i as int),
        i <= r <= s.len(),
{
    proof {
        lemma_digits_end_bounds(s@, i as int);
    }
    let mut j = i;
    while j < s.len() && char_is_digit(s[j])
        invariant
            i <= j <= s.len(),
            digits_end(s@, j as int) == digits_end(s@, i as int),
        decreases s.len() - j,
    {
        j += 1;
    }
    j
}

fn exponent_at_exec(s: &Vec<char>, k: usize) -> (r: bool)
    requires
        k <= s.len(),
    ensures
        r == exponent_at(s@, k as int),
{
    if k >= s.len() {
        return false;
    }
    let c = s[k];
    if c != 'e' && c != 'E' {
        return false;
    }
    let d = if k + 1 < s.len() && (s[k + 1] == '+' || s[k + 1] == '-') {
        k + 2
    } else {
        k + 1
    };
    if d >= s.len() {
        return false;
    }
    skip_digits(s, d) == s.len()
}

fn word_at_ignore_case_exec(s: &Vec<char>, b: usize, lower: &[char], upper: &[char]) -> (r: bool)
    requires
        b <= s.len(),
        lower.len() == upper.len(),
    ensures
        r == word_at_ignore_case(s@, b as int, lower@, upper@),
{
    if s.len() - b != lower.len() {
        return false;
    }
    let mut i: usize = 0;
    while i < lower.len()
        invariant
            s.len() - b == lower.len(),
            lower.len() == upper.len(),
            i <= lower.len(),
            forall|j: int| 0 <= j < i ==> (s@[b + j] == lower@[j] || s@[b + j] == upper@[j]),
        decreases lower.len() - i,
    {
        let c = s[b + i];
        if !(c == lower[i] || c == upper[i]) {
            return false;
        }
        i += 1;
    }
    true
}

/// Whether `s` is the text of a floating-point number (see [`float_text`]).
pub fn is_float_text(s: &Vec<char>) -> (r: bool)
    ensures
        r == float_text(s@),
{
    let b: usize = if s.len() > 0 && (s[0] == '+' || s[0] == '-') {
        1
    } else {
        0
    };
    let inf = ['i', 'n', 'f'];
    let inf_up = ['I', 'N', 'F'];
    let infinity = ['i', 'n', 'f', 'i', 'n', 'i', 't', 'y'];
    let infinity_up = ['I', 'N', 'F', 'I', 'N', 'I', 'T', 'Y'];
    let nan = ['n', 'a', 'n'];
    let nan_up = ['N', 'A', 'N'];
    assert(inf@ == seq!['i', 'n', 'f']);
    assert(inf_up@ == seq!['I', 'N', 'F']);
    assert(infinity@ == seq!['i', 'n', 'f', 'i', 'n', 'i', 't', 'y']);
    assert(infinity_up@ == seq!['I', 'N', 'F', 'I', 'N', 'I', 'T', 'Y']);
    assert(nan@ == seq!['n', 'a', 'n']);
    assert(nan_up@ == seq!['N', 'A', 'N']);
    if word_at_ignore_case_exec(s, b, inf.as_slice(), inf_up.as_slice())
        || word_at_ignore_case_exec(s, b, infinity.as_slice(), infinity_up.as_slice())
        || word_at_ignore_case_exec(s, b, nan.as_slice(), nan_up.as_slice()) {
        return true;
    }
    let int_end = skip_digits(s, b);
    let has_dot = int_end < s.len() && s[int_end] == '.';
    let frac_end = if has_dot {
        skip_digits(s, int_end + 1)
    } else {
        int_end
    };
    let n_digits = if has_dot {
        frac_end - b - 1
    } else {
        frac_end - b
    };
    n_digits > 0 && (frac_end == s.len() || exponent_at_exec(s, frac_end))
}

/// Parses `s` as a `u32` (see [`parse_u32`]).
pub fn parse_u32_chars(s: &Vec<char>) -> (r: Option<u32>)
    ensures
        r == parse_u32(s@),
{
    let start: usize = if s.len() > 0 && s[0] == '+' {
        1
    } else {
        0
    };
    let ghost d = if s@.len() > 0 && s@[0] == '+' {
        s@.drop_first()
    } else {
        s@
    };
    assert(d =~= s@.subrange(start as int, s@.len() as int));
    if start == s.len() {
        return None;
    }
    let mut acc: u64 = 0;
    let mut i = start;
    assert(s@.subrange(start as int, start as int) =~= Seq::<char>::empty());
    while i < s.len()
        invariant
            start <= i <= s.len(),
            d == s@.subrange(start as int, s@.len() as int),
            d == (if s@.len() > 0 && s@[0] == '+' {
                s@.drop_first()
            } else {
                s@
            }),
            acc as nat == digits_value(s@.subrange(start as int, i as int)),
            acc <= u32::MAX,
            all_digits(s@.subrange(start as int, i as int)),
        decreases s.len() - i,
    {
        let c = s[i];
        if !char_is_digit(c) {
            assert(d[i - start] == c);
            assert(!all_digits(d));
            return None;
        }
        let ghost prev = s@.subrange(start as int, i as int);
        let next = acc * 10 + (c as u32 - 48) as u64;
        proof {
            let cur = s@.subrange(start as int, i + 1);
            assert(cur.drop_last() =~= prev);
            assert(cur.last() == c);
            assert(all_digits(cur));
        }
        if next > 0xFFFF_FFFF {
            proof {
                lemma_digits_value_grows(d, i + 1 - start);
                assert(d.take(i + 1 - start) =~= s@.subrange(start as int, i + 1));
                assert(next as nat == digits_value(s@.subrange(start as int, i + 1)));
                assert(digits_value(d) > u32::MAX);
            }
            return None;
        }
        acc = next;
        i += 1;
    }
    assert(s@.subrange(start as int, i as int) =~= d);
    Some(acc as u32)
}

/// The value of `s` as a `u32`, or 0 where `s` is not one.
pub fn u32_or_zero_chars(s: &Vec<char>) -> (r: u32)
    ensures
        r == u32_or_zero(s@),
{
    match parse_u32_chars(s) {
        Some(v) => v,
        None => 0,
    }
}

} // verus!
