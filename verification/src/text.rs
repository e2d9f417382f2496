//! Character-level helpers shared by the parser, the date-time scanner and
//! the serializer: digit classes, decimal rendering and string building.

use vstd::prelude::*;
use vstd::utf8::{decode_utf8, valid_utf8};
use vstd::string::StringExecFns;

verus! {

broadcast use vstd::string::group_string_axioms;

/// Whether `c` is an ASCII decimal digit.
pub open spec fn is_digit(c: char) -> bool {
    '0' <= c && c <= '9'
}

/// The value of a decimal digit character.
pub open spec fn digit_val(c: char) -> int {
    (c as int) - ('0' as int)
}

/// The digit character for a value from 0 to 9.
pub open spec fn digit_char(d: int) -> char {
    (d + ('0' as int)) as char
}

/// Whether every character of `s` in `lo..hi` is a decimal digit.
pub open spec fn all_digits(s: Seq<char>, lo: int, hi: int) -> bool {
    forall|k: int| lo <= k < hi ==> #[trigger] is_digit(s[k])
}

/// The number written by a run of decimal digits, most significant first.
pub open spec fn dec_value(s: Seq<char>) -> int
    decreases s.len(),
{
    if s.len() == 0 {
        0
    } else {
        dec_value(s.drop_last()) * 10 + digit_val(s.last())
    }
}

/// `10` to the power `n`.
pub open spec fn pow10(n: nat) -> nat
    decreases n,
{
    if n == 0 {
        1
    } else {
        10 * pow10((n - 1) as nat)
    }
}

/// The decimal digits of `n`, with no leading zeros (`0` is written `0`).
pub open spec fn dec_digits(n: nat) -> Seq<char>
    decreases n,
{
    if n < 10 {
        seq![digit_char(n as int)]
    } else {
        dec_digits(n / 10).push(digit_char((n % 10) as int))
    }
}

/// A run of `n` copies of `c`.
pub open spec fn repeat_char(c: char, n: nat) -> Seq<char> {
    Seq::new(n, |_i: int| c)
}

/// `n` in decimal, left-padded with zeros to at least `width` digits.
pub open spec fn pad_dec(n: nat, width: nat) -> Seq<char> {
    let d = dec_digits(n);
    if d.len() < width {
        repeat_char('0', (width - d.len()) as nat) + d
    } else {
        d
    }
}

/// A signed integer in decimal, with a leading `-` when negative.
pub open spec fn int_text(n: int) -> Seq<char> {
    if n < 0 {
        seq!['-'] + dec_digits((-n) as nat)
    } else {
        dec_digits(n as nat)
    }
}

pub proof fn lemma_dec_digits_are_digits(n: nat)
    ensures
        dec_digits(n).len() >= 1,
        all_digits(dec_digits(n), 0, dec_digits(n).len() as int),
        dec_value(dec_digits(n)) == n,
    decreases n,
{
    lemma_digit_char_val((n % 10) as int);
    if n >= 10 {
        lemma_dec_digits_are_digits(n / 10);
        let d = dec_digits(n);
        assert(d.drop_last() =~= dec_digits(n / 10));
        assert(d.last() == digit_char((n % 10) as int));
        assert(dec_value(d) == dec_value(dec_digits(n / 10)) * 10 + (n % 10));
        assert(all_digits(d, 0, d.len() as int)) by {
            assert forall|k: int| 0 <= k < d.len() implies #[trigger] is_digit(d[k]) by {
                if k < d.len() - 1 {
                    assert(d[k] == dec_digits(n / 10)[k]);
                }
            }
        }
    } else {
        let d = seq![digit_char(n as int)];
        assert(d.drop_last() =~= Seq::<char>::empty());
        assert(dec_value(Seq::<char>::empty()) == 0);
        assert(dec_value(d) == dec_value(d.drop_last()) * 10 + digit_val(d.last()));
    }
}

/// A digit character reads back as the digit it was made from.
pub proof fn lemma_digit_char_val(d: int)
    requires
        0 <= d < 10,
    ensures
        digit_val(digit_char(d)) == d,
        is_digit(digit_char(d)),
{
    assert(digit_char(d) as int == d + 48);
}

/// A number below `10^k` has at most `k` digits.
pub proof fn lemma_dec_digits_len(n: nat, k: nat)
    requires
        n < pow10(k),
        k >= 1,
    ensures
        dec_digits(n).len() <= k,
    decreases n,
{
    if n >= 10 {
        assert(k >= 2) by {
            if k == 1 {
                assert(pow10(1) == 10 * pow10(0));
            }
        }
        assert(n / 10 < pow10((k - 1) as nat));
        lemma_dec_digits_len(n / 10, (k - 1) as nat);
    }
}

/// `10^20` exceeds every 64-bit unsigned integer.
pub proof fn lemma_pow10_20()
    ensures
        pow10(20) == 100_000_000_000_000_000_000,
{
    reveal_with_fuel(pow10, 21);
}

pub proof fn lemma_pow10_positive(n: nat)
    ensures
        pow10(n) >= 1,
    decreases n,
{
    if n > 0 {
        lemma_pow10_positive((n - 1) as nat);
    }
}

/// A digit run of length `len` denotes less than `10^len`.
pub proof fn lemma_dec_value_bound(s: Seq<char>)
    requires
        all_digits(s, 0, s.len() as int),
    ensures
        0 <= dec_value(s) < pow10(s.len()),
    decreases s.len(),
{
    if s.len() > 0 {
        assert(all_digits(s.drop_last(), 0, s.drop_last().len() as int)) by {
            assert forall|k: int| 0 <= k < s.drop_last().len() implies #[trigger] is_digit(
                s.drop_last()[k],
            ) by {
                assert(is_digit(s[k]));
            }
        }
        lemma_dec_value_bound(s.drop_last());
        assert(is_digit(s[s.len() - 1]));
    }
}

/// Collects the characters of a string slice.
pub fn str_chars(s: &str) -> (v: Vec<char>)
    ensures
        v@ == s@,
{
    let mut v: Vec<char> = Vec::new();
    for c in it: s.chars()
        invariant
            v@ == it.seq().take(it.index() as int),
            it.seq() == s@,
    {
        v.push(c);
    }
    v
}

/// Appends one character to a string.
#[verifier::external_body]
pub fn push_char(s: &mut String, c: char)
    ensures
        final(s)@ == old(s)@.push(c),
{
    s.push(c);
}

/// The character whose code point is `code`, or `None` when `code` is a
/// surrogate or lies beyond `0x10FFFF` (`char::from_u32`).
#[verifier::external_body]
pub fn char_from_code(code: u32) -> (r: Option<char>)
    ensures
        r is Some <==> (code <= 0x10FFFF && !(0xD800 <= code <= 0xDFFF)),
        r matches Some(c) ==> c as u32 == code,
{
    char::from_u32(code)
}

/// Reads bytes as UTF-8 (`core::str::from_utf8`): the text, or, when the
/// bytes are not UTF-8, how many leading bytes are (`Utf8Error::valid_up_to`,
/// documented as the largest index up to which the bytes are valid UTF-8).
#[verifier::external_body]
pub fn utf8_text(bytes: &[u8]) -> (r: Result<&str, usize>)
    ensures
        r is Ok <==> valid_utf8(bytes@),
        r matches Ok(s) ==> s@ == decode_utf8(bytes@),
        r matches Err(n) ==> n <= bytes@.len() && valid_utf8(bytes@.take(n as int)),
        r matches Err(n) ==> forall|m: int| n < m <= bytes@.len() ==> !valid_utf8(#[trigger] bytes@.take(m)),
{
    match core::str::from_utf8(bytes) {
        Ok(s) => Ok(s),
        Err(e) => Err(e.valid_up_to()),
    }
}

/// Appends a string slice to a string.
pub fn push_str(s: &mut String, t: &str)
    ensures
        final(s)@ == old(s)@ + t@,
{
    s.append(t);
}

/// Appends the characters `cs[lo..hi]` to a string.
pub fn push_chars(s: &mut String, cs: &Vec<char>, lo: usize, hi: usize)
    requires
        lo <= hi <= cs.len(),
    ensures
        final(s)@ == old(s)@ + cs@.subrange(lo as int, hi as int),
{
    let mut i = lo;
    while i < hi
        invariant
            lo <= i <= hi <= cs.len(),
            s@ == old(s)@ + cs@.subrange(lo as int, i as int),
        decreases hi - i,
    {
        push_char(s, cs[i]);
        assert(cs@.subrange(lo as int, i + 1) =~= cs@.subrange(lo as int, i as int).push(cs@[i as int]));
        i += 1;
    }
}

/// Builds a string from characters.
pub fn string_from_chars(cs: &Vec<char>, lo: usize, hi: usize) -> (s: String)
    requires
        lo <= hi <= cs.len(),
    ensures
        s@ == cs@.subrange(lo as int, hi as int),
{
    let mut s = String::new();
    push_chars(&mut s, cs, lo, hi);
    assert(Seq::<char>::empty() + cs@.subrange(lo as int, hi as int) =~= cs@.subrange(lo as int, hi as int));
    s
}

/// The digit character for `d`, which must be below 10.
pub fn digit_to_char(d: u64) -> (c: char)
    requires
        d < 10,
    ensures
        c == digit_char(d as int),
        is_digit(c),
{
    let b: u8 = (d as u8) + 48;
    b as char
}

/// The value of a decimal digit character.
pub fn char_digit(c: char) -> (d: u32)
    requires
        is_digit(c),
    ensures
        d == digit_val(c),
        d < 10,
{
    (c as u32) - 48
}

/// Appends `n` in decimal.
pub fn push_decimal(s: &mut String, n: u64)
    ensures
        final(s)@ == old(s)@ + dec_digits(n as nat),
    decreases n,
{
    if n >= 10 {
        push_decimal(s, n / 10);
    }
    push_char(s, digit_to_char(n % 10));
    proof {
        if n >= 10 {
            assert(dec_digits(n as nat) == dec_digits((n / 10) as nat).push(digit_char((n % 10) as int)));
        }
    }
}

/// The number of decimal digits of `n`.
pub fn decimal_len(n: u64) -> (len: usize)
    ensures
        len == dec_digits(n as nat).len(),
        1 <= len <= 20,
    decreases n,
{
    proof {
        lemma_pow10_20();
        lemma_dec_digits_len(n as nat, 20);
    }
    if n < 10 {
        1
    } else {
        let l = decimal_len(n / 10);
        l + 1
    }
}

/// Appends `n` in decimal, left-padded with zeros to `width` digits.
pub fn push_padded(s: &mut String, n: u64, width: usize)
    ensures
        final(s)@ == old(s)@ + pad_dec(n as nat, width as nat),
{
    let len = decimal_len(n);
    let ghost start = s@;
    if len < width {
        let mut k = len;
        while k < width
            invariant
                len <= k <= width,
                s@ == start + repeat_char('0', (k - len) as nat),
            decreases width - k,
        {
            push_char(s, '0');
            assert(repeat_char('0', (k + 1 - len) as nat) =~= repeat_char('0', (k - len) as nat).push('0'));
            k += 1;
        }
    }
    push_decimal(s, n);
    proof {
        if len < width {
            assert(start + repeat_char('0', (width - len) as nat) + dec_digits(n as nat)
                =~= start + pad_dec(n as nat, width as nat));
        } else {
            assert(pad_dec(n as nat, width as nat) == dec_digits(n as nat));
        }
    }
}

/// Appends a signed integer in decimal.
pub fn push_int(s: &mut String, n: i64)
    ensures
        final(s)@ == old(s)@ + int_text(n as int),
{
    if n < 0 {
        push_char(s, '-');
        let m: u64 = ((-(n + 1)) as u64) + 1;
        push_decimal(s, m);
        assert(old(s)@.push('-') + dec_digits(m as nat) =~= old(s)@ + (seq!['-'] + dec_digits(m as nat)));
    } else {
        push_decimal(s, n as u64);
    }
}

} // verus!

verus! {

/// Zeros in front of a run of digits do not change its value.
pub proof fn lemma_dec_value_leading_zeros(z: nat, d: Seq<char>)
    ensures
        dec_value(repeat_char('0', z) + d) == dec_value(d),
    decreases d.len(), z,
{
    if d.len() == 0 {
        assert(repeat_char('0', z) + d =~= repeat_char('0', z));
        if z > 0 {
            let zs = repeat_char('0', z);
            assert(zs.drop_last() =~= repeat_char('0', (z - 1) as nat));
            assert(zs.last() == '0');
            lemma_dec_value_leading_zeros((z - 1) as nat, d);
            assert(repeat_char('0', (z - 1) as nat) + d =~= repeat_char('0', (z - 1) as nat));
        }
    } else {
        let t = repeat_char('0', z) + d;
        assert(t.drop_last() =~= repeat_char('0', z) + d.drop_last());
        assert(t.last() == d.last());
        lemma_dec_value_leading_zeros(z, d.drop_last());
    }
}

/// `n` padded to `w` digits takes exactly `w` characters, all digits, and
/// reads back as `n`.
pub proof fn lemma_pad_dec(n: nat, w: nat)
    requires
        w >= 1,
        n < pow10(w),
    ensures
        pad_dec(n, w).len() == w,
        all_digits(pad_dec(n, w), 0, w as int),
        dec_value(pad_dec(n, w)) == n,
{
    lemma_dec_digits_are_digits(n);
    lemma_dec_digits_len(n, w);
    let d = dec_digits(n);
    if d.len() < w {
        let z = (w - d.len()) as nat;
        lemma_dec_value_leading_zeros(z, d);
        let p = repeat_char('0', z) + d;
        assert forall|k: int| 0 <= k < w implies #[trigger] is_digit(p[k]) by {
            if k >= z {
                assert(p[k] == d[k - z]);
            }
        }
    }
}

} // verus!
