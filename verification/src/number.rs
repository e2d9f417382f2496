//! Integer and float tokens: their grammar, their values, and the reader that
//! turns a token into a [`Value`].

use vstd::prelude::*;

use crate::text::{
    is_digit, digit_val, push_char, push_chars, push_str, char_digit, str_chars, dec_value,
    dec_digits, int_text, all_digits, digit_char, lemma_dec_digits_are_digits, lemma_digit_char_val,
};
use crate::value::{Float, Value};

verus! {

/// Whether `c` is a digit in base `radix` (2, 8, 10 or 16).
pub open spec fn is_radix_digit(c: char, radix: int) -> bool {
    if radix == 16 {
        is_digit(c) || ('a' <= c && c <= 'f') || ('A' <= c && c <= 'F')
    } else if radix == 8 {
        '0' <= c && c <= '7'
    } else if radix == 2 {
        c == '0' || c == '1'
    } else {
        is_digit(c)
    }
}

/// The value of a digit in base 16 or below.
pub open spec fn radix_digit_val(c: char) -> int {
    if is_digit(c) {
        digit_val(c)
    } else if 'a' <= c && c <= 'f' {
        (c as int) - ('a' as int) + 10
    } else {
        (c as int) - ('A' as int) + 10
    }
}

/// The number a run of digits in base `radix` denotes.
pub open spec fn radix_value(s: Seq<char>, radix: int) -> int
    decreases s.len(),
{
    if s.len() == 0 {
        0
    } else {
        radix_value(s.drop_last(), radix) * radix + radix_digit_val(s.last())
    }
}

/// `s` without its underscores.
pub open spec fn strip_underscores(s: Seq<char>) -> Seq<char>
    decreases s.len(),
{
    if s.len() == 0 {
        s
    } else if s.last() == '_' {
        strip_underscores(s.drop_last())
    } else {
        strip_underscores(s.drop_last()).push(s.last())
    }
}

/// Digits in base `radix`, at least one, where an underscore may only sit
/// between two digits.
pub open spec fn underscored_digits(s: Seq<char>, radix: int) -> bool {
    &&& s.len() > 0
    &&& forall|i: int|
        0 <= i < s.len() ==> if #[trigger] s[i] == '_' {
            0 < i < s.len() - 1 && is_radix_digit(s[i - 1], radix) && is_radix_digit(
                s[i + 1],
                radix,
            )
        } else {
            is_radix_digit(s[i], radix)
        }
}

/// Where the run of decimal digits and underscores starting at `j` ends.
pub open spec fn run_end(s: Seq<char>, j: int) -> int
    decreases s.len() - j,
{
    if 0 <= j < s.len() && (is_digit(s[j]) || s[j] == '_') {
        run_end(s, j + 1)
    } else {
        j
    }
}

/// The base a `0x`, `0o` or `0b` prefix selects, or 0 for any other character.
pub open spec fn radix_of(c: char) -> int {
    if c == 'x' {
        16
    } else if c == 'o' {
        8
    } else if c == 'b' {
        2
    } else {
        0
    }
}

/// What a number token denotes: an integer, or a float given by its canonical
/// literal.
pub enum Number {
    Int(int),
    Float(Seq<char>),
}

/// The digits of a canonical decimal literal: at least one digit, and no
/// leading zero unless the digit is the only one.
pub open spec fn canonical_int_digits(s: Seq<char>) -> bool {
    s.len() > 0 && (forall|i: int| 0 <= i < s.len() ==> #[trigger] is_digit(s[i])) && (s[0] == '0'
        ==> s.len() == 1)
}

/// Whether every character of `s` is a digit.
pub open spec fn digits_only(s: Seq<char>) -> bool {
    s.len() > 0 && forall|i: int| 0 <= i < s.len() ==> #[trigger] is_digit(s[i])
}

/// A canonical float literal: `inf`, `nan` or a decimal literal with a
/// fraction, an exponent or both, optionally preceded by `-`, with no
/// underscores.
pub open spec fn float_literal(t: Seq<char>) -> bool {
    if t.len() > 0 && t[0] == '-' {
        unsigned_float_literal(t.drop_first())
    } else {
        unsigned_float_literal(t)
    }
}

/// A canonical float literal without its sign.
pub open spec fn unsigned_float_literal(r: Seq<char>) -> bool {
    r == "inf"@ || r == "nan"@ || exists|a: int, b: int|
        #![trigger float_shape(r, a, b)]
        float_shape(r, a, b)
}

/// `r` is digits `r[..a]`, then an optional `.` and fraction up to `b`, then
/// an optional exponent up to the end, with a fraction or an exponent present.
pub open spec fn float_shape(r: Seq<char>, a: int, b: int) -> bool {
    &&& 0 < a <= b <= r.len()
    &&& canonical_int_digits(r.subrange(0, a))
    &&& (a == b || (r[a] == '.' && digits_only(r.subrange(a + 1, b))))
    &&& (b == r.len() || ((r[b] == 'e' || r[b] == 'E') && ({
        let c = if b + 1 < r.len() && (r[b + 1] == '+' || r[b + 1] == '-') {
            b + 2
        } else {
            b + 1
        };
        digits_only(r.subrange(c, r.len() as int))
    })))
    &&& (a < b || b < r.len())
}

/// The decimal part of a number token (after any sign): what it denotes, or
/// `None` if it is malformed or out of range.
pub open spec fn spec_decimal(r: Seq<char>, negative: bool) -> Option<Number> {
    let a = run_end(r, 0);
    let int_part = r.subrange(0, a);
    if !underscored_digits(int_part, 10) || (a > 1 && r[0] == '0') {
        None
    } else {
        let has_frac = a < r.len() && r[a] == '.';
        let b = if has_frac { run_end(r, a + 1) } else { a };
        let frac_part = r.subrange(a + 1, b);
        if has_frac && !underscored_digits(frac_part, 10) {
            None
        } else {
            let has_exp = b < r.len() && (r[b] == 'e' || r[b] == 'E');
            let exp_sign = has_exp && b + 1 < r.len() && (r[b + 1] == '+' || r[b + 1] == '-');
            let c0 = if exp_sign { b + 2 } else { b + 1 };
            let c = if has_exp { run_end(r, c0) } else { b };
            let exp_part = r.subrange(c0, c);
            if has_exp && !underscored_digits(exp_part, 10) {
                None
            } else if c != r.len() {
                None
            } else if !has_frac && !has_exp {
                let v = radix_value(strip_underscores(int_part), 10);
                let signed = if negative { -v } else { v };
                if i64::MIN <= signed <= i64::MAX {
                    Some(Number::Int(signed))
                } else {
                    None
                }
            } else if too_large(
                strip_underscores(int_part),
                if has_frac {
                    strip_underscores(frac_part)
                } else {
                    Seq::empty()
                },
                exp_sign && r[b + 1] == '-',
                if has_exp {
                    strip_underscores(exp_part)
                } else {
                    Seq::empty()
                },
            ) {
                None
            } else {
                let text = (if negative { seq!['-'] } else { Seq::empty() }) + strip_underscores(
                    int_part,
                ) + (if has_frac { seq!['.'] + strip_underscores(frac_part) } else { Seq::empty() })
                    + (if has_exp {
                    seq![r[b]] + (if exp_sign { seq![r[b + 1]] } else { Seq::empty() })
                        + strip_underscores(exp_part)
                } else {
                    Seq::empty()
                });
                Some(Number::Float(text))
            }
        }
    }
}

/// What a number token denotes, or `None` if it is not a valid TOML integer
/// or float.
pub open spec fn spec_number(t: Seq<char>) -> Option<Number> {
    let signed = t.len() > 0 && (t[0] == '+' || t[0] == '-');
    let negative = t.len() > 0 && t[0] == '-';
    let rest = if signed { t.drop_first() } else { t };
    if rest == "inf"@ {
        Some(Number::Float(if negative { "-inf"@ } else { "inf"@ }))
    } else if rest == "nan"@ {
        Some(Number::Float(if negative { "-nan"@ } else { "nan"@ }))
    } else if rest.len() >= 2 && rest[0] == '0' && radix_of(rest[1]) != 0 {
        let radix = radix_of(rest[1]);
        let digits = rest.subrange(2, rest.len() as int);
        if signed {
            None
        } else if underscored_digits(digits, radix) && radix_value(
            strip_underscores(digits),
            radix,
        ) <= i64::MAX {
            Some(Number::Int(radix_value(strip_underscores(digits), radix)))
        } else {
            None
        }
    } else {
        spec_decimal(rest, negative)
    }
}

} // verus!

verus! {

/// Whether `c` is a digit in base `radix`.
pub fn radix_digit(c: char, radix: u64) -> (b: bool)
    requires
        radix == 2 || radix == 8 || radix == 10 || radix == 16,
    ensures
        b == is_radix_digit(c, radix as int),
{
    if radix == 16 {
        ('0' <= c && c <= '9') || ('a' <= c && c <= 'f') || ('A' <= c && c <= 'F')
    } else if radix == 8 {
        '0' <= c && c <= '7'
    } else if radix == 2 {
        c == '0' || c == '1'
    } else {
        '0' <= c && c <= '9'
    }
}

/// The value of a digit in base 16 or below.
fn radix_digit_value(c: char) -> (d: u64)
    requires
        is_radix_digit(c, 16),
    ensures
        d == radix_digit_val(c),
        d < 16,
{
    if '0' <= c && c <= '9' {
        ((c as u32) - 48) as u64
    } else if 'a' <= c && c <= 'f' {
        ((c as u32) - 87) as u64
    } else {
        ((c as u32) - 55) as u64
    }
}

proof fn lemma_radix_digit_bounds(c: char, radix: int)
    requires
        radix == 2 || radix == 8 || radix == 10 || radix == 16,
        is_radix_digit(c, radix),
    ensures
        is_radix_digit(c, 16),
        0 <= radix_digit_val(c) < radix,
{
}

/// Where the run of decimal digits and underscores starting at `j` ends.
pub fn digit_run_end(t: &Vec<char>, j: usize) -> (e: usize)
    requires
        j <= t.len(),
    ensures
        e == run_end(t@, j as int),
        j <= e <= t.len(),
{
    let mut e = j;
    while e < t.len() && (('0' <= t[e] && t[e] <= '9') || t[e] == '_')
        invariant
            j <= e <= t.len(),
            run_end(t@, j as int) == run_end(t@, e as int),
        decreases t.len() - e,
    {
        e += 1;
    }
    e
}

/// Whether `t[lo..hi]` is digits in base `radix` with underscores only
/// between digits.
pub fn check_underscored(t: &Vec<char>, lo: usize, hi: usize, radix: u64) -> (b: bool)
    requires
        lo <= hi <= t.len(),
        radix == 2 || radix == 8 || radix == 10 || radix == 16,
    ensures
        b == underscored_digits(t@.subrange(lo as int, hi as int), radix as int),
{
    let ghost s = t@.subrange(lo as int, hi as int);
    if lo == hi {
        return false;
    }
    let mut i = lo;
    while i < hi
        invariant
            lo <= i <= hi <= t.len(),
            lo < hi,
            radix == 2 || radix == 8 || radix == 10 || radix == 16,
            s == t@.subrange(lo as int, hi as int),
            forall|k: int|
                0 <= k < i - lo ==> if #[trigger] s[k] == '_' {
                    0 < k < s.len() - 1 && is_radix_digit(s[k - 1], radix as int)
                        && is_radix_digit(s[k + 1], radix as int)
                } else {
                    is_radix_digit(s[k], radix as int)
                },
        decreases hi - i,
    {
        let c = t[i];
        if c == '_' {
            if !(i > lo && i + 1 < hi && radix_digit(t[i - 1], radix) && radix_digit(
                t[i + 1],
                radix,
            )) {
                assert(s[i - lo] == '_');
                return false;
            }
        } else if !radix_digit(c, radix) {
            assert(s[i - lo] == c);
            return false;
        }
        i += 1;
    }
    true
}

proof fn lemma_strip_push(s: Seq<char>, c: char)
    ensures
        strip_underscores(s.push(c)) == if c == '_' {
            strip_underscores(s)
        } else {
            strip_underscores(s).push(c)
        },
{
    assert(s.push(c).drop_last() =~= s);
}

proof fn lemma_radix_value_push(s: Seq<char>, c: char, radix: int)
    ensures
        radix_value(s.push(c), radix) == radix_value(s, radix) * radix + radix_digit_val(c),
{
    assert(s.push(c).drop_last() =~= s);
}

/// Every character of the stripped run is a digit, and a longer run never
/// denotes less.
proof fn lemma_strip_value_mono(t: Seq<char>, lo: int, i: int, j: int, radix: int)
    requires
        0 <= lo <= i <= j <= t.len(),
        radix == 2 || radix == 8 || radix == 10 || radix == 16,
        forall|k: int| lo <= k < j ==> t[k] == '_' || is_radix_digit(#[trigger] t[k], radix),
    ensures
        radix_value(strip_underscores(t.subrange(lo, i)), radix) <= radix_value(
            strip_underscores(t.subrange(lo, j)),
            radix,
        ),
        radix_value(strip_underscores(t.subrange(lo, i)), radix) >= 0,
    decreases j - i,
{
    lemma_value_nonneg(t, lo, i, radix);
    if i < j {
        lemma_strip_value_mono(t, lo, i, j - 1, radix);
        assert(t.subrange(lo, j) =~= t.subrange(lo, j - 1).push(t[j - 1]));
        lemma_strip_push(t.subrange(lo, j - 1), t[j - 1]);
        lemma_value_nonneg(t, lo, j - 1, radix);
        if t[j - 1] != '_' {
            lemma_radix_value_push(strip_underscores(t.subrange(lo, j - 1)), t[j - 1], radix);
            lemma_radix_digit_bounds(t[j - 1], radix);
            let v = radix_value(strip_underscores(t.subrange(lo, j - 1)), radix);
            assert(v * radix >= v) by (nonlinear_arith)
                requires
                    v >= 0,
                    radix >= 2,
            ;
        }
    }
}

proof fn lemma_value_nonneg(t: Seq<char>, lo: int, i: int, radix: int)
    requires
        0 <= lo <= i <= t.len(),
        radix == 2 || radix == 8 || radix == 10 || radix == 16,
        forall|k: int| lo <= k < i ==> t[k] == '_' || is_radix_digit(#[trigger] t[k], radix),
    ensures
        radix_value(strip_underscores(t.subrange(lo, i)), radix) >= 0,
    decreases i - lo,
{
    if i > lo {
        lemma_value_nonneg(t, lo, i - 1, radix);
        assert(t.subrange(lo, i) =~= t.subrange(lo, i - 1).push(t[i - 1]));
        lemma_strip_push(t.subrange(lo, i - 1), t[i - 1]);
        if t[i - 1] != '_' {
            lemma_radix_value_push(strip_underscores(t.subrange(lo, i - 1)), t[i - 1], radix);
            lemma_radix_digit_bounds(t[i - 1], radix);
            let v = radix_value(strip_underscores(t.subrange(lo, i - 1)), radix);
            assert(v * radix >= 0) by (nonlinear_arith)
                requires
                    v >= 0,
                    radix >= 2,
            ;
        }
    }
}

/// The value of `t[lo..hi]` without its underscores, if it is at most `cap`.
fn stripped_value(t: &Vec<char>, lo: usize, hi: usize, radix: u64, cap: u64) -> (r: Option<u64>)
    requires
        lo <= hi <= t.len(),
        radix == 2 || radix == 8 || radix == 10 || radix == 16,
        underscored_digits(t@.subrange(lo as int, hi as int), radix as int),
    ensures
        r is Some <==> radix_value(strip_underscores(t@.subrange(lo as int, hi as int)), radix as int)
            <= cap,
        r matches Some(v) ==> v == radix_value(
            strip_underscores(t@.subrange(lo as int, hi as int)),
            radix as int,
        ),
{
    let ghost s = t@.subrange(lo as int, hi as int);
    assert forall|k: int| lo <= k < hi implies t@[k] == '_' || is_radix_digit(
        #[trigger] t@[k],
        radix as int,
    ) by {
        assert(t@[k] == s[k - lo]);
    }
    let mut acc: u64 = 0;
    let mut i = lo;
    assert(t@.subrange(lo as int, lo as int) =~= Seq::<char>::empty());
    while i < hi
        invariant
            lo <= i <= hi <= t.len(),
            radix == 2 || radix == 8 || radix == 10 || radix == 16,
            forall|k: int| lo <= k < hi ==> t@[k] == '_' || is_radix_digit(
                #[trigger] t@[k],
                radix as int,
            ),
            acc == radix_value(strip_underscores(t@.subrange(lo as int, i as int)), radix as int),
            acc <= cap,
        decreases hi - i,
    {
        let c = t[i];
        proof {
            assert(t@.subrange(lo as int, i + 1) =~= t@.subrange(lo as int, i as int).push(c));
            lemma_strip_push(t@.subrange(lo as int, i as int), c);
        }
        if c != '_' {
            proof {
                lemma_radix_digit_bounds(c, radix as int);
                lemma_radix_value_push(strip_underscores(t@.subrange(lo as int, i as int)), c, radix as int);
            }
            let d = radix_digit_value(c);
            if d > cap {
                proof {
                    lemma_strip_value_mono(t@, lo as int, i + 1, hi as int, radix as int);
                    lemma_value_nonneg(t@, lo as int, i as int, radix as int);
                    assert(acc * radix >= 0) by (nonlinear_arith)
                        requires
                            acc >= 0,
                            radix >= 2,
                    ;
                }
                return None;
            }
            if acc > (cap - d) / radix {
                proof {
                    assert(acc * radix + d > cap) by (nonlinear_arith)
                        requires
                            acc > (cap - d) / radix as int,
                            radix >= 2,
                            d <= cap || d > cap,
                            d >= 0,
                    ;
                    lemma_strip_value_mono(t@, lo as int, i + 1, hi as int, radix as int);
                }
                return None;
            }
            proof {
                assert(acc * radix + d <= cap) by (nonlinear_arith)
                    requires
                        acc <= (cap - d) / radix as int,
                        radix >= 2,
                        d <= cap,
                ;
            }
            acc = acc * radix + d;
        }
        i += 1;
    }
    Some(acc)
}

/// Appends `t[lo..hi]` without its underscores.
fn push_stripped(out: &mut String, t: &Vec<char>, lo: usize, hi: usize)
    requires
        lo <= hi <= t.len(),
    ensures
        final(out)@ == old(out)@ + strip_underscores(t@.subrange(lo as int, hi as int)),
{
    let mut i = lo;
    assert(t@.subrange(lo as int, lo as int) =~= Seq::<char>::empty());
    assert(old(out)@ + Seq::<char>::empty() =~= old(out)@);
    while i < hi
        invariant
            lo <= i <= hi <= t.len(),
            out@ == old(out)@ + strip_underscores(t@.subrange(lo as int, i as int)),
        decreases hi - i,
    {
        let c = t[i];
        proof {
            assert(t@.subrange(lo as int, i + 1) =~= t@.subrange(lo as int, i as int).push(c));
            lemma_strip_push(t@.subrange(lo as int, i as int), c);
        }
        if c != '_' {
            push_char(out, c);
            assert(out@ =~= old(out)@ + strip_underscores(t@.subrange(lo as int, i + 1)));
        }
        i += 1;
    }
}

/// The characters of `t`, quoted in backticks, for error messages.
fn quoted_token(t: &Vec<char>) -> (s: String)
    ensures
        s@ == seq!['`'] + t@ + seq!['`'],
{
    let mut s = String::new();
    push_char(&mut s, '`');
    push_chars(&mut s, t, 0, t.len());
    push_char(&mut s, '`');
    assert(t@.subrange(0, t@.len() as int) =~= t@);
    assert(s@ =~= seq!['`'] + t@ + seq!['`']);
    s
}

/// Whether `t[lo..]` spells out `word`.
fn rest_is(t: &Vec<char>, lo: usize, word: &str) -> (b: bool)
    requires
        lo <= t.len(),
    ensures
        b == (t@.subrange(lo as int, t.len() as int) == word@),
{
    let w = crate::text::str_chars(word);
    let r = if lo <= t.len() { crate::map::chars_eq(&w, &copy_range(t, lo, t.len())) } else { false };
    r
}

/// A copy of `t[lo..hi]`.
pub fn copy_range(t: &Vec<char>, lo: usize, hi: usize) -> (r: Vec<char>)
    requires
        lo <= hi <= t.len(),
    ensures
        r@ == t@.subrange(lo as int, hi as int),
{
    let mut r: Vec<char> = Vec::new();
    let mut i = lo;
    while i < hi
        invariant
            lo <= i <= hi <= t.len(),
            r@ == t@.subrange(lo as int, i as int),
        decreases hi - i,
    {
        r.push(t[i]);
        assert(r@ =~= t@.subrange(lo as int, i + 1));
        i += 1;
    }
    r
}

} // verus!

verus! {

/// Whether a value is what a number token denotes.
pub open spec fn denotes(v: Value, n: Number) -> bool {
    match n {
        Number::Int(i) => v matches Value::Integer(x) && x == i,
        Number::Float(f) => v matches Value::Float(x) && x@ == f,
    }
}

proof fn lemma_strip_props(s: Seq<char>)
    requires
        forall|k: int| 0 <= k < s.len() ==> s[k] == '_' || is_digit(#[trigger] s[k]),
    ensures
        forall|k: int|
            0 <= k < strip_underscores(s).len() ==> #[trigger] is_digit(strip_underscores(s)[k]),
        s.len() > 0 && is_digit(s[0]) ==> strip_underscores(s).len() > 0 && strip_underscores(
            s,
        )[0] == s[0],
        s.len() == 1 && is_digit(s[0]) ==> strip_underscores(s) == s,
    decreases s.len(),
{
    if s.len() > 0 {
        let p = s.drop_last();
        assert forall|k: int| 0 <= k < p.len() implies p[k] == '_' || is_digit(#[trigger] p[k]) by {
            assert(p[k] == s[k]);
        }
        lemma_strip_props(p);
        assert(is_digit(s.last()) || s.last() == '_');
        let sp = strip_underscores(p);
        if s.last() == '_' {
            assert(strip_underscores(s) == sp);
        } else {
            assert(strip_underscores(s) == sp.push(s.last()));
            assert forall|k: int| 0 <= k < sp.push(s.last()).len() implies #[trigger] is_digit(
                sp.push(s.last())[k],
            ) by {
                if k < sp.len() {
                    assert(sp.push(s.last())[k] == sp[k]);
                }
            }
        }
        if s.len() == 1 {
            assert(p =~= Seq::<char>::empty());
            assert(strip_underscores(p) == p);
            if is_digit(s[0]) {
                assert(strip_underscores(s) =~= seq![s[0]]);
                assert(s =~= seq![s[0]]);
            }
        } else {
            assert(p[0] == s[0]);
        }
    }
}

/// The text a decimal float token denotes is a canonical float literal.
proof fn lemma_float_text(
    neg: bool,
    i: Seq<char>,
    has_frac: bool,
    f: Seq<char>,
    has_exp: bool,
    e: char,
    sign: Seq<char>,
    x: Seq<char>,
)
    requires
        canonical_int_digits(i),
        has_frac ==> digits_only(f),
        has_exp ==> digits_only(x) && (e == 'e' || e == 'E') && (sign.len() == 0 || (sign.len()
            == 1 && (sign[0] == '+' || sign[0] == '-'))),
        has_frac || has_exp,
    ensures
        float_literal(
            (if neg { seq!['-'] } else { Seq::empty() }) + i + (if has_frac {
                seq!['.'] + f
            } else {
                Seq::empty()
            }) + (if has_exp { seq![e] + sign + x } else { Seq::empty() }),
        ),
{
    let fr = if has_frac { seq!['.'] + f } else { Seq::<char>::empty() };
    let ex = if has_exp { seq![e] + sign + x } else { Seq::<char>::empty() };
    let w = i + fr + ex;
    let t = (if neg { seq!['-'] } else { Seq::<char>::empty() }) + i + fr + ex;
    let a = i.len() as int;
    let b = a + fr.len();
    assert(w.subrange(0, a) =~= i);
    if has_frac {
        assert(w[a] == '.');
        assert(w.subrange(a + 1, b) =~= f);
    }
    if has_exp {
        assert(w[b] == e);
        let c = if b + 1 < w.len() && (w[b + 1] == '+' || w[b + 1] == '-') {
            b + 2
        } else {
            b + 1
        };
        if sign.len() == 1 {
            assert(w[b + 1] == sign[0]);
            assert(w.subrange(b + 2, w.len() as int) =~= x);
        } else {
            assert(x.len() > 0 && is_digit(x[0]));
            assert(w[b + 1] == x[0]);
            assert(w.subrange(b + 1, w.len() as int) =~= x);
        }
        assert(c == b + 1 + sign.len());
    } else {
        assert(b == w.len());
    }
    assert(float_shape(w, a, b));
    assert(unsigned_float_literal(w));
    if neg {
        assert(t[0] == '-');
        assert(t.drop_first() =~= w);
    } else {
        assert(t =~= w);
        assert(w.len() > 0 && is_digit(w[0]));
    }
}

/// Reads a number token: an integer in decimal, hexadecimal, octal or binary,
/// or a float, including `inf` and `nan`.
pub fn parse_number_token(t: &Vec<char>) -> (r: Result<Value, String>)
    ensures
        r is Ok <==> spec_number(t@) is Some,
        r matches Ok(v) ==> denotes(v, spec_number(t@)->0),
{
    let n = t.len();
    let signed = n > 0 && (t[0] == '+' || t[0] == '-');
    let negative = n > 0 && t[0] == '-';
    let s: usize = if signed { 1 } else { 0 };
    let ghost rest = if signed { t@.drop_first() } else { t@ };
    assert(rest =~= t@.subrange(s as int, n as int));
    if rest_is(t, s, "inf") {
        proof {
            reveal_strlit("inf");
            reveal_strlit("-inf");
            assert("-inf"@.drop_first() =~= "inf"@);
        }
        let text = if negative { "-inf".to_owned() } else { "inf".to_owned() };
        return Ok(Value::Float(Float::from_canonical(text)));
    }
    if rest_is(t, s, "nan") {
        proof {
            reveal_strlit("nan");
            reveal_strlit("-nan");
            reveal_strlit("inf");
            assert("-nan"@.drop_first() =~= "nan"@);
        }
        let text = if negative { "-nan".to_owned() } else { "nan".to_owned() };
        return Ok(Value::Float(Float::from_canonical(text)));
    }
    if n - s >= 2 && t[s] == '0' && (t[s + 1] == 'x' || t[s + 1] == 'o' || t[s + 1] == 'b') {
        if signed {
            return Err("a sign is not allowed on a hexadecimal, octal or binary integer".to_owned());
        }
        let radix: u64 = if t[1] == 'x' { 16 } else if t[1] == 'o' { 8 } else { 2 };
        if !check_underscored(t, 2, n, radix) {
            let mut m = String::new();
            push_str(&mut m, "invalid digits in ");
            let q = quoted_token(t);
            push_str(&mut m, q.as_str());
            return Err(m);
        }
        match stripped_value(t, 2, n, radix, 0x7fff_ffff_ffff_ffff) {
            Some(v) => {
                return Ok(Value::Integer(v as i64));
            },
            None => {
                let mut m = quoted_token(t);
                push_str(&mut m, " is out of the range of a 64-bit integer");
                return Err(m);
            },
        }
    }
    let r = copy_range(t, s, n);
    assert(r@ == rest);
    parse_decimal(&r, negative, t)
}

/// Reads the decimal part of a number token (after any sign); `token` is the
/// whole token, for error messages.
fn parse_decimal(r: &Vec<char>, negative: bool, token: &Vec<char>) -> (res: Result<Value, String>)
    ensures
        res is Ok <==> spec_decimal(r@, negative) is Some,
        res matches Ok(v) ==> denotes(v, spec_decimal(r@, negative)->0),
{
    let t = token;
    let rl = r.len();
    let a = digit_run_end(r, 0);
    if !check_underscored(r, 0, a, 10) {
        return Err("an underscore must sit between two digits, and a number needs a digit".to_owned());
    }
    if a > 1 && r[0] == '0' {
        let mut m = String::new();
        push_str(&mut m, "leading zeros are not allowed in ");
        let q = quoted_token(t);
        push_str(&mut m, q.as_str());
        return Err(m);
    }
    let has_frac = a < rl && r[a] == '.';
    let b = if has_frac { digit_run_end(r, a + 1) } else { a };
    if has_frac && !check_underscored(r, a + 1, b, 10) {
        return Err("an underscore must sit between two digits, and a fraction needs a digit".to_owned());
    }
    let has_exp = b < rl && (r[b] == 'e' || r[b] == 'E');
    let exp_sign = has_exp && b + 1 < rl && (r[b + 1] == '+' || r[b + 1] == '-');
    let c0 = if exp_sign { b + 2 } else if has_exp { b + 1 } else { b };
    let c = if has_exp { digit_run_end(r, c0) } else { b };
    if has_exp && !check_underscored(r, c0, c, 10) {
        return Err("an underscore must sit between two digits, and an exponent needs a digit".to_owned());
    }
    if c != rl {
        let mut m = quoted_token(t);
        push_str(&mut m, " is not a valid number");
        return Err(m);
    }
    if !has_frac && !has_exp {
        let cap: u64 = if negative { 0x8000_0000_0000_0000 } else { 0x7fff_ffff_ffff_ffff };
        match stripped_value(r, 0, a, 10, cap) {
            Some(v) => {
                let x: i64 = if negative {
                    if v == 0x8000_0000_0000_0000 {
                        i64::MIN
                    } else {
                        -(v as i64)
                    }
                } else {
                    v as i64
                };
                return Ok(Value::Integer(x));
            },
            None => {
                let mut m = quoted_token(t);
                push_str(&mut m, " is out of the range of a 64-bit integer");
                return Err(m);
            },
        }
    }
    let exp_negative = exp_sign && r[b + 1] == '-';
    if float_too_large(r, a, has_frac, b, has_exp, exp_negative, c0, c) {
        let mut m = quoted_token(t);
        push_str(&mut m, " is out of the range of a 64-bit float");
        return Err(m);
    }
    let text = float_text(r, negative, a, has_frac, b, has_exp, exp_sign, c0, c);
    proof {
        let sign = if exp_sign { seq![r@[b + 1]] } else { Seq::<char>::empty() };
        let ex = if has_exp { r@[b as int] } else { 'e' };
        lemma_token_float_reads_back(
            r@.subrange(0, a as int),
            has_frac,
            r@.subrange(a + 1, b as int),
            has_exp,
            ex,
            sign,
            r@.subrange(c0 as int, c as int),
            negative,
        );
    }
    Ok(Value::Float(Float::from_canonical(text)))
}

proof fn lemma_token_float_text(
    int_part: Seq<char>,
    has_frac: bool,
    frac_part: Seq<char>,
    has_exp: bool,
    ex: char,
    sign: Seq<char>,
    exp_part: Seq<char>,
    negative: bool,
)
    requires
        underscored_digits(int_part, 10),
        !(int_part.len() > 1 && int_part[0] == '0'),
        has_frac ==> underscored_digits(frac_part, 10),
        has_exp ==> underscored_digits(exp_part, 10) && (ex == 'e' || ex == 'E') && (sign.len()
            == 0 || (sign.len() == 1 && (sign[0] == '+' || sign[0] == '-'))),
        has_frac || has_exp,
    ensures
        float_literal(
            (if negative { seq!['-'] } else { Seq::empty() }) + strip_underscores(int_part) + (
            if has_frac {
                seq!['.'] + strip_underscores(frac_part)
            } else {
                Seq::empty()
            }) + (if has_exp {
                seq![ex] + sign + strip_underscores(exp_part)
            } else {
                Seq::empty()
            }),
        ),
{
    lemma_strip_props(int_part);
    if has_frac {
        lemma_strip_props(frac_part);
    }
    if has_exp {
        lemma_strip_props(exp_part);
    }
    lemma_float_text(
        negative,
        strip_underscores(int_part),
        has_frac,
        strip_underscores(frac_part),
        has_exp,
        ex,
        sign,
        strip_underscores(exp_part),
    );
}

/// Builds the canonical literal of a decimal float token.
#[verifier::rlimit(40)]
fn float_text(
    r: &Vec<char>,
    negative: bool,
    a: usize,
    has_frac: bool,
    b: usize,
    has_exp: bool,
    exp_sign: bool,
    c0: usize,
    c: usize,
) -> (text: String)
    requires
        a <= b <= r.len(),
        has_frac ==> a < r.len() && a + 1 <= b,
        !has_frac ==> a == b,
        has_exp ==> b < r.len() && c0 <= c <= r.len() && (r@[b as int] == 'e' || r@[b as int] == 'E'),
        has_exp && exp_sign ==> c0 == b + 2 && b + 1 < r.len() && (r@[b + 1] == '+' || r@[b + 1] == '-'),
        has_exp && !exp_sign ==> c0 == b + 1,
        !has_exp ==> !exp_sign,
        has_frac || has_exp,
        underscored_digits(r@.subrange(0, a as int), 10),
        !(a > 1 && r@[0] == '0'),
        has_frac ==> underscored_digits(r@.subrange(a + 1, b as int), 10),
        has_exp ==> underscored_digits(r@.subrange(c0 as int, c as int), 10),
    ensures
        text@ == (if negative { seq!['-'] } else { Seq::empty() }) + strip_underscores(
            r@.subrange(0, a as int),
        ) + (if has_frac {
            seq!['.'] + strip_underscores(r@.subrange(a + 1, b as int))
        } else {
            Seq::empty()
        }) + (if has_exp {
            seq![r@[b as int]] + (if exp_sign { seq![r@[b + 1]] } else { Seq::empty() })
                + strip_underscores(r@.subrange(c0 as int, c as int))
        } else {
            Seq::empty()
        }),
        float_literal(text@),
{
    let ghost int_part = r@.subrange(0, a as int);
    let ghost frac_part = r@.subrange(a + 1, b as int);
    let ghost exp_part = r@.subrange(c0 as int, c as int);
    let ghost sign = if exp_sign { seq![r@[b + 1]] } else { Seq::<char>::empty() };
    let ghost ex = if has_exp { r@[b as int] } else { 'e' };
    let ghost p0: Seq<char> = if negative { seq!['-'] } else { Seq::empty() };
    let ghost p2: Seq<char> = if has_frac { seq!['.'] + strip_underscores(frac_part) } else { Seq::empty() };
    let ghost p3: Seq<char> = if has_exp { seq![ex] + sign + strip_underscores(exp_part) } else { Seq::empty() };
    let mut text = String::new();
    if negative {
        push_char(&mut text, '-');
    }
    assert(text@ =~= p0);
    push_stripped(&mut text, r, 0, a);
    let ghost t1 = text@;
    assert(t1 == p0 + strip_underscores(int_part));
    if has_frac {
        push_char(&mut text, '.');
        push_stripped(&mut text, r, a + 1, b);
        assert(text@ =~= t1 + p2);
    } else {
        assert(text@ =~= t1 + p2);
    }
    let ghost t2 = text@;
    if has_exp {
        push_char(&mut text, r[b]);
        if exp_sign {
            push_char(&mut text, r[b + 1]);
        }
        push_stripped(&mut text, r, c0, c);
        assert(text@ =~= t2 + p3);
    } else {
        assert(text@ =~= t2 + p3);
    }
    proof {
        lemma_token_float_text(int_part, has_frac, frac_part, has_exp, ex, sign, exp_part, negative);
    }
    text
}

} // verus!

verus! {

/// The decimal digits of 2^1024 − 2^970, halfway between the largest finite
/// double and 2^1024. A decimal float at or above it rounds to infinity.
pub open spec fn overflow_threshold() -> Seq<char> {
    "179769313486231580793728971405303415079934132710037826936173778980444968292764750946649017977587207096330286416692887910946555547851940402630657488671505820681908902000708383676273854845817711531764475730270069855571366959622842914819860834936475292719074168444365510704342711559699508093042880177904174497792"@
}

/// `s` without its leading zeros.
pub open spec fn strip_leading_zeros(s: Seq<char>) -> Seq<char>
    decreases s.len(),
{
    if s.len() > 0 && s[0] == '0' {
        strip_leading_zeros(s.drop_first())
    } else {
        s
    }
}

/// Whether `0.s` is at least `0.t`, for digit strings with `t` ending in a
/// non-zero digit: compared digit by digit.
pub open spec fn digits_at_least(s: Seq<char>, t: Seq<char>) -> bool
    decreases t.len(),
{
    if t.len() == 0 {
        true
    } else if s.len() == 0 {
        false
    } else if s[0] != t[0] {
        s[0] > t[0]
    } else {
        digits_at_least(s.drop_first(), t.drop_first())
    }
}

/// Whether the decimal float with significand digits `int_digits` then
/// `frac_digits` and exponent `±exp_digits` is too large for a double: its
/// significant digits `s` and decimal magnitude `m` (the value lies in
/// `[10^(m-1), 10^m)`) put it at or above the threshold. An exponent of more
/// than 25 significant digits is beyond any magnitude a document can reach
/// back from.
pub open spec fn too_large(
    int_digits: Seq<char>,
    frac_digits: Seq<char>,
    exp_negative: bool,
    exp_digits: Seq<char>,
) -> bool {
    let s = strip_leading_zeros(int_digits + frac_digits);
    let big = strip_leading_zeros(exp_digits).len() > 25;
    let e = if exp_negative {
        -radix_value(exp_digits, 10)
    } else {
        radix_value(exp_digits, 10)
    };
    let m = s.len() + e - frac_digits.len();
    s.len() > 0 && !(exp_negative && big) && (big || m > 309 || (m == 309 && digits_at_least(
        s,
        overflow_threshold(),
    )))
}

/// Where the leading zeros of `s[lo..]` end.
fn skip_zeros(s: &Vec<char>, lo: usize) -> (z: usize)
    requires
        lo <= s.len(),
    ensures
        lo <= z <= s.len(),
        forall|k: int| lo <= k < z ==> #[trigger] s@[k] == '0',
        strip_leading_zeros(s@.subrange(lo as int, s@.len() as int)) == s@.subrange(
            z as int,
            s@.len() as int,
        ),
{
    let mut z = lo;
    while z < s.len() && s[z] == '0'
        invariant
            lo <= z <= s.len(),
            forall|k: int| lo <= k < z ==> #[trigger] s@[k] == '0',
            strip_leading_zeros(s@.subrange(lo as int, s@.len() as int)) == strip_leading_zeros(
                s@.subrange(z as int, s@.len() as int),
            ),
        decreases s.len() - z,
    {
        assert(s@.subrange(z as int, s@.len() as int).drop_first() =~= s@.subrange(
            z + 1,
            s@.len() as int,
        ));
        z += 1;
    }
    z
}

/// The value of a run of at most 25 decimal digits.
fn small_decimal(s: &Vec<char>) -> (v: u128)
    requires
        s.len() <= 25,
        forall|i: int| 0 <= i < s.len() ==> #[trigger] is_digit(s@[i]),
    ensures
        v == radix_value(s@, 10),
        v < 10_000_000_000_000_000_000_000_000,
{
    let mut v: u128 = 0;
    let mut i: usize = 0;
    while i < s.len()
        invariant
            i <= s.len() <= 25,
            forall|j: int| 0 <= j < s.len() ==> #[trigger] is_digit(s@[j]),
            v == radix_value(s@.take(i as int), 10),
            v < pow10(i as nat),
        decreases s.len() - i,
    {
        proof {
            assert(s@.take(i + 1).drop_last() =~= s@.take(i as int));
            lemma_pow10_25(i as nat);
            assert(pow10((i + 1) as nat) == 10 * pow10(i as nat));
        }
        let d = char_digit(s[i]) as u128;
        v = v * 10 + d;
        i += 1;
    }
    assert(s@.take(s.len() as int) =~= s@);
    proof {
        lemma_pow10_25(s.len() as nat);
        lemma_pow10_mono(s.len() as nat, 25);
    }
    v
}

/// Powers of ten grow with the exponent.
proof fn lemma_pow10_mono(m: nat, n: nat)
    requires
        m <= n,
    ensures
        pow10(m) <= pow10(n),
    decreases n - m,
{
    if m < n {
        lemma_pow10_mono(m, (n - 1) as nat);
        assert(pow10(n) == 10 * pow10((n - 1) as nat));
        lemma_pow10_pos((n - 1) as nat);
    }
}

/// Powers of ten are positive.
proof fn lemma_pow10_pos(n: nat)
    ensures
        pow10(n) >= 1,
    decreases n,
{
    if n > 0 {
        lemma_pow10_pos((n - 1) as nat);
    }
}

/// Ten to the power `n`.
pub open spec fn pow10(n: nat) -> int
    decreases n,
{
    if n == 0 {
        1
    } else {
        10 * pow10((n - 1) as nat)
    }
}

/// Powers of ten up to the 26th fit comfortably in 128 bits.
proof fn lemma_pow10_25(n: nat)
    requires
        n <= 25,
    ensures
        1 <= pow10(n) <= pow10(25),
        pow10(25) == 10_000_000_000_000_000_000_000_000,
    decreases 25 - n,
{
    reveal_with_fuel(pow10, 26);
    if n < 25 {
        lemma_pow10_25(n + 1);
    }
}

/// Whether `0.s[lo..]` is at least `0.t`.
fn at_least(s: &Vec<char>, lo: usize, t: &Vec<char>) -> (b: bool)
    requires
        lo <= s.len(),
    ensures
        b == digits_at_least(s@.subrange(lo as int, s@.len() as int), t@),
{
    let mut i: usize = 0;
    assert(t@.subrange(0, t@.len() as int) =~= t@);
    while i < t.len()
        invariant
            lo <= s.len(),
            i <= t.len(),
            i <= s.len() - lo,
            digits_at_least(s@.subrange(lo as int, s@.len() as int), t@) == digits_at_least(
                s@.subrange(lo + i, s@.len() as int),
                t@.subrange(i as int, t@.len() as int),
            ),
        decreases t.len() - i,
    {
        if i >= s.len() - lo {
            return false;
        }
        if s[lo + i] != t[i] {
            return s[lo + i] > t[i];
        }
        assert(s@.subrange(lo + i, s@.len() as int).drop_first() =~= s@.subrange(lo + i + 1, s@.len() as int));
        assert(t@.subrange(i as int, t@.len() as int).drop_first() =~= t@.subrange(i + 1, t@.len() as int));
        i += 1;
    }
    true
}

/// Whether the decimal float `r` (after any sign) describes, with its parts
/// at the given positions, is too large for a double; see [`too_large`].
fn float_too_large(
    r: &Vec<char>,
    a: usize,
    has_frac: bool,
    b: usize,
    has_exp: bool,
    exp_negative: bool,
    c0: usize,
    c: usize,
) -> (big: bool)
    requires
        a <= b <= r.len(),
        has_frac ==> a + 1 <= b,
        has_exp ==> c0 <= c <= r.len(),
        underscored_digits(r@.subrange(0, a as int), 10),
        has_frac ==> underscored_digits(r@.subrange(a + 1, b as int), 10),
        has_exp ==> underscored_digits(r@.subrange(c0 as int, c as int), 10),
    ensures
        big == too_large(
            strip_underscores(r@.subrange(0, a as int)),
            if has_frac {
                strip_underscores(r@.subrange(a + 1, b as int))
            } else {
                Seq::empty()
            },
            exp_negative,
            if has_exp {
                strip_underscores(r@.subrange(c0 as int, c as int))
            } else {
                Seq::empty()
            },
        ),
{
    let ghost int_digits = strip_underscores(r@.subrange(0, a as int));
    let ghost frac_digits = if has_frac {
        strip_underscores(r@.subrange(a + 1, b as int))
    } else {
        Seq::<char>::empty()
    };
    let ghost exp_digits = if has_exp {
        strip_underscores(r@.subrange(c0 as int, c as int))
    } else {
        Seq::<char>::empty()
    };
    let mut sig = String::new();
    push_stripped(&mut sig, r, 0, a);
    let mut frac = String::new();
    if has_frac {
        push_stripped(&mut frac, r, a + 1, b);
    }
    push_str(&mut sig, frac.as_str());
    let mut ex = String::new();
    if has_exp {
        push_stripped(&mut ex, r, c0, c);
    }
    let sig_chars = str_chars(sig.as_str());
    let frac_chars = str_chars(frac.as_str());
    let ex_chars = str_chars(ex.as_str());
    assert(sig_chars@ =~= int_digits + frac_digits);
    assert(frac_chars@ =~= frac_digits);
    assert(ex_chars@ =~= exp_digits);
    assert(sig_chars@.subrange(0, sig_chars@.len() as int) =~= sig_chars@);
    assert(ex_chars@.subrange(0, ex_chars@.len() as int) =~= ex_chars@);
    let z = skip_zeros(&sig_chars, 0);
    let len = sig_chars.len() - z;
    if len == 0 {
        return false;
    }
    let ez = skip_zeros(&ex_chars, 0);
    let big_exp = ex_chars.len() - ez > 25;
    if big_exp {
        return !exp_negative;
    }
    let rest = copy_range(&ex_chars, ez, ex_chars.len());
    proof {
        if has_exp {
            lemma_strip_digits(r@.subrange(c0 as int, c as int));
        }
        lemma_radix_value_leading_zeros(ex_chars@, ez as int);
    }
    let e = small_decimal(&rest);
    let m: i128 = if exp_negative {
        len as i128 - e as i128 - frac_chars.len() as i128
    } else {
        len as i128 + e as i128 - frac_chars.len() as i128
    };
    if m > 309 {
        return true;
    }
    if m < 309 {
        return false;
    }
    let t = str_chars(
        "179769313486231580793728971405303415079934132710037826936173778980444968292764750946649017977587207096330286416692887910946555547851940402630657488671505820681908902000708383676273854845817711531764475730270069855571366959622842914819860834936475292719074168444365510704342711559699508093042880177904174497792",
    );
    at_least(&sig_chars, z, &t)
}

/// The digits of an exponent are all digits once its underscores are gone.
proof fn lemma_strip_digits(s: Seq<char>)
    requires
        underscored_digits(s, 10),
    ensures
        forall|k: int| 0 <= k < strip_underscores(s).len() ==> #[trigger] is_digit(strip_underscores(s)[k]),
{
    assert forall|k: int| 0 <= k < s.len() implies s[k] == '_' || is_digit(#[trigger] s[k]) by {
        assert(s[k] == '_' || is_radix_digit(s[k], 10));
    }
    lemma_strip_props(s);
}

/// Leading zeros do not change the value of a run of digits.
proof fn lemma_radix_value_leading_zeros(s: Seq<char>, z: int)
    requires
        0 <= z <= s.len(),
        forall|k: int| 0 <= k < z ==> #[trigger] s[k] == '0',
    ensures
        radix_value(s, 10) == radix_value(s.subrange(z, s.len() as int), 10),
    decreases s.len(),
{
    if s.len() == 0 {
    } else if z == s.len() {
        lemma_radix_value_zeros(s);
        assert(s.subrange(z, s.len() as int) =~= Seq::<char>::empty());
    } else {
        lemma_radix_value_leading_zeros(s.drop_last(), z);
        assert(s.subrange(z, s.len() as int).drop_last() =~= s.drop_last().subrange(z, s.len() - 1));
    }
}

/// A run of zeros is worth nothing.
proof fn lemma_radix_value_zeros(s: Seq<char>)
    requires
        forall|k: int| 0 <= k < s.len() ==> #[trigger] s[k] == '0',
    ensures
        radix_value(s, 10) == 0,
    decreases s.len(),
{
    if s.len() > 0 {
        lemma_radix_value_zeros(s.drop_last());
    }
}

} // verus!

verus! {

/// A run of digits has no underscores to strip.
proof fn lemma_strip_digits_only(s: Seq<char>)
    requires
        forall|k: int| 0 <= k < s.len() ==> #[trigger] is_digit(s[k]),
    ensures
        strip_underscores(s) == s,
    decreases s.len(),
{
    if s.len() > 0 {
        lemma_strip_digits_only(s.drop_last());
        assert(is_digit(s[s.len() - 1]));
        assert(s.drop_last().push(s.last()) =~= s);
    }
}

/// A run of digits ends where the text does.
proof fn lemma_run_end_digits(s: Seq<char>, j: int)
    requires
        0 <= j <= s.len(),
        forall|k: int| j <= k < s.len() ==> #[trigger] is_digit(s[k]),
    ensures
        run_end(s, j) == s.len(),
    decreases s.len() - j,
{
    if j < s.len() {
        lemma_run_end_digits(s, j + 1);
    }
}

/// In base ten, a run of digits is worth its decimal value.
proof fn lemma_radix_ten(s: Seq<char>)
    requires
        forall|k: int| 0 <= k < s.len() ==> #[trigger] is_digit(s[k]),
    ensures
        radix_value(s, 10) == dec_value(s),
    decreases s.len(),
{
    if s.len() > 0 {
        lemma_radix_ten(s.drop_last());
        assert(is_digit(s[s.len() - 1]));
    }
}

/// The decimal digits of a number start with a non-zero digit, unless the
/// number is zero.
proof fn lemma_dec_digits_first(n: nat)
    ensures
        n > 0 ==> dec_digits(n)[0] != '0',
    decreases n,
{
    if n >= 10 {
        lemma_dec_digits_first(n / 10);
        lemma_dec_digits_are_digits(n / 10);
        assert(dec_digits(n)[0] == dec_digits(n / 10)[0]);
    } else if n > 0 {
        lemma_digit_char_val(n as int);
        assert(digit_val(digit_char(n as int)) == n);
    }
}

/// What the writer writes for an integer reads back as that integer.
pub proof fn law_integer_reads_back(i: i64)
    ensures
        spec_number(int_text(i as int)) == Some(Number::Int(i as int)),
{
    let n: nat = if i < 0 { (-(i as int)) as nat } else { i as nat };
    let d = dec_digits(n);
    lemma_dec_digits_are_digits(n);
    lemma_dec_digits_first(n);
    assert forall|k: int| 0 <= k < d.len() implies #[trigger] is_digit(d[k]) by {
        assert(all_digits(d, 0, d.len() as int));
    }
    let t = int_text(i as int);
    let negative = i < 0;
    if negative {
        assert(t =~= seq!['-'] + d);
        assert(t.drop_first() =~= d);
    } else {
        assert(t == d);
        assert(is_digit(d[0]));
    }
    reveal_strlit("inf");
    reveal_strlit("nan");
    assert(is_digit(d[0]));
    assert(d != "inf"@) by {
        if d == "inf"@ {
            assert(d[0] == 'i');
        }
    }
    assert(d != "nan"@) by {
        if d == "nan"@ {
            assert(d[0] == 'n');
        }
    }
    if d.len() >= 2 {
        assert(is_digit(d[1]));
    }
    lemma_run_end_digits(d, 0);
    assert(d.subrange(0, d.len() as int) =~= d);
    lemma_strip_digits_only(d);
    lemma_radix_ten(d);
    assert(underscored_digits(d, 10)) by {
        assert forall|k: int| 0 <= k < d.len() implies (if #[trigger] d[k] == '_' {
            0 < k < d.len() - 1 && is_radix_digit(d[k - 1], 10) && is_radix_digit(d[k + 1], 10)
        } else {
            is_radix_digit(d[k], 10)
        }) by {
            assert(is_digit(d[k]));
        }
    }
}

} // verus!

verus! {

/// Where a run of decimal digits ends, when it is known to end at `e`.
proof fn lemma_run_end_at(s: Seq<char>, j: int, e: int)
    requires
        0 <= j <= e <= s.len(),
        forall|k: int| j <= k < e ==> #[trigger] is_digit(s[k]),
        e == s.len() || !(is_digit(s[e]) || s[e] == '_'),
    ensures
        run_end(s, j) == e,
    decreases e - j,
{
    if j < e {
        lemma_run_end_at(s, j + 1, e);
    }
}

/// A run of digits is a valid underscored run with nothing to strip.
proof fn lemma_plain_digits(s: Seq<char>)
    requires
        digits_only(s),
    ensures
        underscored_digits(s, 10),
        strip_underscores(s) == s,
{
    lemma_strip_digits_only(s);
    assert forall|k: int| 0 <= k < s.len() implies (if #[trigger] s[k] == '_' {
        0 < k < s.len() - 1 && is_radix_digit(s[k - 1], 10) && is_radix_digit(s[k + 1], 10)
    } else {
        is_radix_digit(s[k], 10)
    }) by {
        assert(is_digit(s[k]));
    }
}

/// How the reader splits a canonical decimal float literal (without its
/// sign) back into its parts.
#[verifier::spinoff_prover]
#[verifier::rlimit(40)]
proof fn lemma_canonical_parts(
    i: Seq<char>,
    has_frac: bool,
    f: Seq<char>,
    has_exp: bool,
    e: char,
    sign: Seq<char>,
    x: Seq<char>,
)
    requires
        canonical_int_digits(i),
        has_frac ==> digits_only(f),
        has_exp ==> digits_only(x) && (e == 'e' || e == 'E') && (sign.len() == 0 || (sign.len()
            == 1 && (sign[0] == '+' || sign[0] == '-'))),
        has_frac || has_exp,
    ensures
        ({
            let fr = if has_frac { seq!['.'] + f } else { Seq::<char>::empty() };
            let ex = if has_exp { seq![e] + sign + x } else { Seq::<char>::empty() };
            let r = i + fr + ex;
            let a = i.len() as int;
            let b = a + fr.len();
            &&& run_end(r, 0) == a
            &&& r.subrange(0, a) == i
            &&& (a < r.len() && r[a] == '.') == has_frac
            &&& has_frac ==> run_end(r, a + 1) == b && r.subrange(a + 1, b) == f
            &&& (b < r.len() && (r[b] == 'e' || r[b] == 'E')) == has_exp
            &&& has_exp ==> r[b] == e
            &&& has_exp ==> (b + 1 < r.len() && (r[b + 1] == '+' || r[b + 1] == '-')) == (sign.len() == 1)
            &&& has_exp && sign.len() == 1 ==> r[b + 1] == sign[0]
            &&& has_exp ==> run_end(r, b + 1 + sign.len()) == r.len()
            &&& has_exp ==> r.subrange(b + 1 + sign.len(), r.len() as int) == x
            &&& !has_exp ==> b == r.len()
            &&& is_digit(r[0])
            &&& r.len() >= 2 ==> radix_of(r[1]) == 0
        }),
{
    let fr = if has_frac { seq!['.'] + f } else { Seq::<char>::empty() };
    let ex = if has_exp { seq![e] + sign + x } else { Seq::<char>::empty() };
    let r = i + fr + ex;
    let a = i.len() as int;
    let b = a + fr.len();
    assert forall|k: int| 0 <= k < a implies #[trigger] r[k] == i[k] && is_digit(r[k]) by {}
    assert(r.subrange(0, a) =~= i);
    if has_frac {
        assert(r[a] == '.');
        assert forall|k: int| a + 1 <= k < b implies #[trigger] r[k] == f[k - a - 1] && is_digit(r[k]) by {}
        assert(r.subrange(a + 1, b) =~= f);
    } else {
        assert(r[a] == e);
    }
    lemma_run_end_at(r, 0, a);
    if has_frac {
        if b < r.len() {
            assert(r[b] == e);
        }
        lemma_run_end_at(r, a + 1, b);
    }
    if has_exp {
        assert(r[b] == e);
        let c0 = b + 1 + sign.len();
        assert forall|k: int| c0 <= k < r.len() implies #[trigger] r[k] == x[k - c0] && is_digit(r[k]) by {}
        assert(r.subrange(c0, r.len() as int) =~= x);
        lemma_run_end_digits(r, c0);
        if sign.len() == 1 {
            assert(r[b + 1] == sign[0]);
        } else {
            assert(r[b + 1] == x[0]);
        }
    } else {
        assert(b == r.len());
    }
    assert(is_digit(r[0]));
    if r.len() >= 2 {
        if a > 1 {
            assert(is_digit(r[1]));
        } else {
            assert(r[1] == '.' || r[1] == e);
        }
    }
}

/// A canonical decimal float literal, built from its parts, reads back as
/// itself, provided it is not too large for a double.
#[verifier::spinoff_prover]
#[verifier::rlimit(60)]
proof fn lemma_canonical_float(
    neg: bool,
    i: Seq<char>,
    has_frac: bool,
    f: Seq<char>,
    has_exp: bool,
    e: char,
    sign: Seq<char>,
    x: Seq<char>,
)
    requires
        canonical_int_digits(i),
        has_frac ==> digits_only(f),
        has_exp ==> digits_only(x) && (e == 'e' || e == 'E') && (sign.len() == 0 || (sign.len()
            == 1 && (sign[0] == '+' || sign[0] == '-'))),
        has_frac || has_exp,
        !too_large(
            i,
            if has_frac { f } else { Seq::empty() },
            has_exp && sign.len() == 1 && sign[0] == '-',
            if has_exp { x } else { Seq::empty() },
        ),
    ensures
        ({
            let t = (if neg { seq!['-'] } else { Seq::empty() }) + i + (if has_frac {
                seq!['.'] + f
            } else {
                Seq::empty()
            }) + (if has_exp { seq![e] + sign + x } else { Seq::empty() });
            spec_number(t) == Some(Number::Float(t))
        }),
{
    let fr = if has_frac { seq!['.'] + f } else { Seq::<char>::empty() };
    let ex = if has_exp { seq![e] + sign + x } else { Seq::<char>::empty() };
    let pre: Seq<char> = if neg { seq!['-'] } else { Seq::empty() };
    let r = i + fr + ex;
    let t = pre + i + fr + ex;
    assert(t =~= pre + r);
    lemma_canonical_parts(i, has_frac, f, has_exp, e, sign, x);
    lemma_plain_digits(i);
    if has_frac {
        lemma_plain_digits(f);
    }
    if has_exp {
        lemma_plain_digits(x);
        let b = (i.len() + fr.len()) as int;
        assert(ex =~= seq![r[b]] + (if sign.len() == 1 { seq![r[b + 1]] } else { Seq::<char>::empty() }) + x);
    }
    assert(spec_decimal(r, neg) == Some(Number::Float(t)));
    reveal_strlit("inf");
    reveal_strlit("nan");
    assert(r != "inf"@) by {
        if r == "inf"@ {
            assert(r[0] == 'i');
        }
    }
    assert(r != "nan"@) by {
        if r == "nan"@ {
            assert(r[0] == 'n');
        }
    }
    if neg {
        assert(t[0] == '-');
        assert(t.drop_first() =~= r);
    } else {
        assert(t =~= r);
    }
}

/// The canonical literal of a decimal float token reads back as itself,
/// provided the token was not too large for a double.
pub(crate) proof fn lemma_token_float_reads_back(
    int_part: Seq<char>,
    has_frac: bool,
    frac_part: Seq<char>,
    has_exp: bool,
    ex: char,
    sign: Seq<char>,
    exp_part: Seq<char>,
    negative: bool,
)
    requires
        underscored_digits(int_part, 10),
        !(int_part.len() > 1 && int_part[0] == '0'),
        has_frac ==> underscored_digits(frac_part, 10),
        has_exp ==> underscored_digits(exp_part, 10) && (ex == 'e' || ex == 'E') && (sign.len()
            == 0 || (sign.len() == 1 && (sign[0] == '+' || sign[0] == '-'))),
        has_frac || has_exp,
        !too_large(
            strip_underscores(int_part),
            if has_frac { strip_underscores(frac_part) } else { Seq::empty() },
            has_exp && sign.len() == 1 && sign[0] == '-',
            if has_exp { strip_underscores(exp_part) } else { Seq::empty() },
        ),
    ensures
        ({
            let t = (if negative { seq!['-'] } else { Seq::empty() }) + strip_underscores(int_part) + (
            if has_frac {
                seq!['.'] + strip_underscores(frac_part)
            } else {
                Seq::empty()
            }) + (if has_exp {
                seq![ex] + sign + strip_underscores(exp_part)
            } else {
                Seq::empty()
            });
            spec_number(t) == Some(Number::Float(t))
        }),
{
    lemma_strip_props(int_part);
    if has_frac {
        lemma_strip_props(frac_part);
    }
    if has_exp {
        lemma_strip_props(exp_part);
    }
    lemma_canonical_float(
        negative,
        strip_underscores(int_part),
        has_frac,
        strip_underscores(frac_part),
        has_exp,
        ex,
        sign,
        strip_underscores(exp_part),
    );
}

} // verus!
