//! The lexical grammar of TOML, as spec functions over the characters of a
//! document: whitespace, comments, keys and the four string flavours.

use vstd::prelude::*;

use crate::number::{is_radix_digit, radix_value};
use crate::text::is_digit;

verus! {

/// Control characters TOML forbids in strings and comments: everything below
/// a space except tab, and delete.
pub open spec fn is_control(c: char) -> bool {
    (c < ' ' && c != '\t') || c == '\u{7f}'
}

/// Characters a bare key is made of.
pub open spec fn is_bare_key_char(c: char) -> bool {
    ('a' <= c && c <= 'z') || ('A' <= c && c <= 'Z') || ('0' <= c && c <= '9') || c == '_' || c
        == '-'
}

/// Characters that may end a bare value (number, boolean, date-time).
pub open spec fn is_value_end(c: char) -> bool {
    c == ' ' || c == '\t' || c == '\r' || c == '\n' || c == ',' || c == ']' || c == '}' || c == '#'
}

/// Whether `rest` may follow a written value without being read as part of
/// it: the end of the text, or a character that ends values; a space only
/// when no digit follows it, which would read as the time after a date.
pub open spec fn closes_value(rest: Seq<char>) -> bool {
    rest.len() == 0 || (is_value_end(rest[0]) && (rest[0] == ' ' ==> rest.len() > 1 && !is_digit(rest[1])))
}

/// Where the run of spaces and tabs starting at `i` ends.
pub open spec fn spaces_end(s: Seq<char>, i: int) -> int
    decreases s.len() - i,
{
    if 0 <= i < s.len() && (s[i] == ' ' || s[i] == '\t') {
        spaces_end(s, i + 1)
    } else {
        i
    }
}

/// Where the run of bare-key characters starting at `i` ends.
pub open spec fn bare_key_end(s: Seq<char>, i: int) -> int
    decreases s.len() - i,
{
    if 0 <= i < s.len() && is_bare_key_char(s[i]) {
        bare_key_end(s, i + 1)
    } else {
        i
    }
}

/// Whether a newline (`\n` or `\r\n`) starts at `i`; its length.
pub open spec fn newline_len(s: Seq<char>, i: int) -> int {
    if 0 <= i < s.len() && s[i] == '\n' {
        1
    } else if 0 <= i && i + 1 < s.len() && s[i] == '\r' && s[i + 1] == '\n' {
        2
    } else {
        0
    }
}

/// Whether a carriage return not followed by a line feed sits at `i`.
pub open spec fn stray_cr(s: Seq<char>, i: int) -> bool {
    0 <= i < s.len() && s[i] == '\r' && newline_len(s, i) == 0
}

/// The body of a comment starting at `i` (just after `#`): where it ends, or
/// `None` if it holds a control character.
pub open spec fn comment_end(s: Seq<char>, i: int) -> Option<int>
    decreases s.len() - i,
{
    if i < 0 || i >= s.len() || newline_len(s, i) > 0 {
        Some(i)
    } else if is_control(s[i]) {
        None
    } else {
        comment_end(s, i + 1)
    }
}

/// Whitespace, newlines and comments starting at `i`: where they end, or
/// `None` if one of them is malformed.
pub open spec fn trivia_end(s: Seq<char>, i: int) -> Option<int>
    decreases s.len() - i, 0int,
{
    if i < 0 || i >= s.len() {
        Some(i)
    } else if s[i] == ' ' || s[i] == '\t' {
        trivia_end(s, i + 1)
    } else if s[i] == '#' {
        match comment_end(s, i + 1) {
            Some(j) => {
                if i < j <= s.len() {
                    trivia_end(s, j)
                } else {
                    None
                }
            },
            None => None,
        }
    } else if newline_len(s, i) > 0 {
        trivia_end(s, i + newline_len(s, i))
    } else if s[i] == '\r' {
        None
    } else {
        Some(i)
    }
}

/// The character a one-letter escape stands for.
pub open spec fn simple_escape(c: char) -> Option<char> {
    if c == 'b' {
        Some('\u{8}')
    } else if c == 't' {
        Some('\t')
    } else if c == 'n' {
        Some('\n')
    } else if c == 'f' {
        Some('\u{c}')
    } else if c == 'r' {
        Some('\r')
    } else if c == 'e' {
        Some('\u{1b}')
    } else if c == '"' {
        Some('"')
    } else if c == '\\' {
        Some('\\')
    } else {
        None
    }
}

/// Whether `code` is a Unicode scalar value.
pub open spec fn is_scalar_value(code: int) -> bool {
    0 <= code <= 0x10FFFF && !(0xD800 <= code <= 0xDFFF)
}

/// Whether `s[lo..hi]` is all hexadecimal digits.
pub open spec fn all_hex(s: Seq<char>, lo: int, hi: int) -> bool {
    forall|k: int| lo <= k < hi ==> #[trigger] is_radix_digit(s[k], 16)
}

/// An escape sequence whose backslash is just before `j`: the character it
/// stands for and where it ends.
pub open spec fn escape_at(s: Seq<char>, j: int) -> Option<(char, int)> {
    if j < 0 || j >= s.len() {
        None
    } else {
        let c = s[j];
        let digits: int = if c == 'x' {
            2
        } else if c == 'u' {
            4
        } else if c == 'U' {
            8
        } else {
            0
        };
        if digits == 0 {
            match simple_escape(c) {
                Some(e) => Some((e, j + 1)),
                None => None,
            }
        } else if j + 1 + digits > s.len() || !all_hex(s, j + 1, j + 1 + digits) {
            None
        } else {
            let code = radix_value(s.subrange(j + 1, j + 1 + digits), 16);
            if is_scalar_value(code) {
                Some(((code as u32) as char, j + 1 + digits))
            } else {
                None
            }
        }
    }
}

/// A single-line basic string whose opening quote is just before `i`: its
/// contents and where it ends (after the closing quote).
pub open spec fn basic_string(s: Seq<char>, i: int) -> Option<(Seq<char>, int)>
    decreases s.len() - i,
{
    if i < 0 || i >= s.len() {
        None
    } else if s[i] == '"' {
        Some((Seq::empty(), i + 1))
    } else if s[i] == '\\' {
        match escape_at(s, i + 1) {
            Some((c, j)) => if i < j <= s.len() {
                match basic_string(s, j) {
                    Some((r, e)) => Some((seq![c] + r, e)),
                    None => None,
                }
            } else {
                None
            },
            None => None,
        }
    } else if s[i] == '\n' || s[i] == '\r' || is_control(s[i]) {
        None
    } else {
        match basic_string(s, i + 1) {
            Some((r, e)) => Some((seq![s[i]] + r, e)),
            None => None,
        }
    }
}

/// A single-line literal string whose opening quote is just before `i`.
pub open spec fn literal_string(s: Seq<char>, i: int) -> Option<(Seq<char>, int)>
    decreases s.len() - i,
{
    if i < 0 || i >= s.len() {
        None
    } else if s[i] == '\'' {
        Some((Seq::empty(), i + 1))
    } else if s[i] == '\n' || s[i] == '\r' || is_control(s[i]) {
        None
    } else {
        match literal_string(s, i + 1) {
            Some((r, e)) => Some((seq![s[i]] + r, e)),
            None => None,
        }
    }
}

/// A single-line string, basic or literal, whose opening quote is just
/// before `i`.
pub open spec fn quoted_string(s: Seq<char>, i: int, literal: bool) -> Option<(Seq<char>, int)> {
    if literal {
        literal_string(s, i)
    } else {
        basic_string(s, i)
    }
}

/// `r` with `out` put in front of its text.
pub open spec fn prefixed(out: Seq<char>, r: Option<(Seq<char>, int)>) -> Option<(Seq<char>, int)> {
    match r {
        Some((t, e)) => Some((out + t, e)),
        None => None,
    }
}

/// How many copies of `q` follow one another from `i`.
pub open spec fn quote_run(s: Seq<char>, i: int, q: char) -> nat
    decreases s.len() - i,
{
    if 0 <= i < s.len() && s[i] == q {
        1 + quote_run(s, i + 1, q)
    } else {
        0
    }
}

/// Whether the backslash at `i` is followed only by spaces and tabs up to
/// the end of its line.
pub open spec fn line_ending_backslash(s: Seq<char>, i: int) -> bool {
    newline_len(s, spaces_end(s, i + 1)) > 0
}

/// After a line-ending backslash: skips spaces, tabs and newlines from `j`,
/// failing on a stray carriage return.
pub open spec fn skip_folded(s: Seq<char>, j: int) -> Option<int>
    decreases s.len() - j,
{
    let k = spaces_end(s, j);
    if j < 0 || k < j {
        None
    } else if newline_len(s, k) > 0 {
        skip_folded(s, k + newline_len(s, k))
    } else if stray_cr(s, k) {
        None
    } else {
        Some(k)
    }
}

/// The body of a multi-line string, basic or literal, from `i`: its contents
/// and where it ends (after the closing delimiter).
pub open spec fn multiline_body(s: Seq<char>, i: int, literal: bool) -> Option<(Seq<char>, int)>
    decreases s.len() - i,
{
    let q = if literal { '\'' } else { '"' };
    if i < 0 || i >= s.len() {
        None
    } else if s[i] == q {
        let n = quote_run(s, i, q);
        if n < 3 {
            if 0 < n && i + n <= s.len() {
                match multiline_body(s, i + n, literal) {
                    Some((r, e)) => Some((Seq::new(n as nat, |_k: int| q) + r, e)),
                    None => None,
                }
            } else {
                None
            }
        } else if n > 5 {
            None
        } else {
            Some((Seq::new((n - 3) as nat, |_k: int| q), i + n))
        }
    } else if s[i] == '\\' && !literal {
        if line_ending_backslash(s, i) {
            match skip_folded(s, i + 1) {
                Some(j) => if i < j <= s.len() {
                    multiline_body(s, j, literal)
                } else {
                    None
                },
                None => None,
            }
        } else {
            match escape_at(s, i + 1) {
                Some((c, j)) => if i < j <= s.len() {
                    match multiline_body(s, j, literal) {
                        Some((r, e)) => Some((seq![c] + r, e)),
                        None => None,
                    }
                } else {
                    None
                },
                None => None,
            }
        }
    } else if s[i] == '\n' {
        match multiline_body(s, i + 1, literal) {
            Some((r, e)) => Some((seq!['\n'] + r, e)),
            None => None,
        }
    } else if newline_len(s, i) == 2 {
        match multiline_body(s, i + 2, literal) {
            Some((r, e)) => Some((seq!['\n'] + r, e)),
            None => None,
        }
    } else if is_control(s[i]) {
        None
    } else {
        match multiline_body(s, i + 1, literal) {
            Some((r, e)) => Some((seq![s[i]] + r, e)),
            None => None,
        }
    }
}

/// A multi-line string whose opening delimiter starts at `i`: a newline right
/// after the delimiter is trimmed.
pub open spec fn multiline_string(s: Seq<char>, i: int, literal: bool) -> Option<(Seq<char>, int)> {
    let j = i + 3;
    if stray_cr(s, j) {
        None
    } else {
        multiline_body(s, j + newline_len(s, j), literal)
    }
}

} // verus!

verus! {

/// What may follow a header or a key/value pair on its line: spaces, an
/// optional comment, then a newline or the end of the document. Where the
/// next line starts, or `None`.
pub open spec fn line_end(s: Seq<char>, i: int) -> Option<int> {
    let k = spaces_end(s, i);
    let k2 = if 0 <= k < s.len() && s[k] == '#' {
        comment_end(s, k + 1)
    } else {
        Some(k)
    };
    match k2 {
        Some(j) => if j >= s.len() {
            Some(j)
        } else if newline_len(s, j) > 0 {
            Some(j + newline_len(s, j))
        } else {
            None
        },
        None => None,
    }
}

/// A simple key starting at `i`: bare, basic-quoted or literal-quoted. The
/// key and where it ends.
pub open spec fn simple_key(s: Seq<char>, i: int) -> Option<(Seq<char>, int)> {
    if i < 0 || i >= s.len() {
        None
    } else if s[i] == '"' {
        basic_string(s, i + 1)
    } else if s[i] == '\'' {
        literal_string(s, i + 1)
    } else if is_bare_key_char(s[i]) {
        Some((s.subrange(i, bare_key_end(s, i)), bare_key_end(s, i)))
    } else {
        None
    }
}

/// The rest of a dotted key after a part that ended at `j`: the further parts
/// and where the key ends (after any spaces).
pub open spec fn key_tail(s: Seq<char>, j: int) -> Option<(Seq<Seq<char>>, int)>
    decreases s.len() - j,
{
    let k = spaces_end(s, j);
    if 0 <= j && j <= k < s.len() && s[k] == '.' {
        match simple_key(s, spaces_end(s, k + 1)) {
            Some((part, e)) => if j < e <= s.len() {
                match key_tail(s, e) {
                    Some((rest, end)) => Some((seq![part] + rest, end)),
                    None => None,
                }
            } else {
                None
            },
            None => None,
        }
    } else {
        Some((Seq::empty(), k))
    }
}

/// A possibly dotted key starting at `i`: its parts and where it ends.
pub open spec fn dotted_key(s: Seq<char>, i: int) -> Option<(Seq<Seq<char>>, int)> {
    match simple_key(s, i) {
        Some((first, e)) => match key_tail(s, e) {
            Some((rest, end)) => Some((seq![first] + rest, end)),
            None => None,
        },
        None => None,
    }
}

} // verus!

verus! {

/// Whether a bare value may end at `j`: at the end of the document or before
/// a character that ends values.
pub open spec fn value_end_ok(s: Seq<char>, j: int) -> bool {
    j >= s.len() || is_value_end(s[j])
}

/// Where the bare token starting at `i` ends: at the first character that
/// ends values, or at the end of the document.
pub open spec fn token_end(s: Seq<char>, i: int) -> int
    decreases s.len() - i,
{
    if 0 <= i < s.len() && !is_value_end(s[i]) {
        token_end(s, i + 1)
    } else {
        i
    }
}

/// Whether `s[i..]` starts with `w`.
pub open spec fn starts_with_at(s: Seq<char>, i: int, w: Seq<char>) -> bool {
    0 <= i && i + w.len() <= s.len() && s.subrange(i, i + w.len()) == w
}

/// A boolean at `i`: its value and where it ends.
pub open spec fn bool_value(s: Seq<char>, i: int) -> Option<(bool, int)> {
    if starts_with_at(s, i, "true"@) && value_end_ok(s, i + 4) {
        Some((true, i + 4))
    } else if starts_with_at(s, i, "false"@) && value_end_ok(s, i + 5) {
        Some((false, i + 5))
    } else {
        None
    }
}

/// A string value, in any of the four flavours, whose opening quote is at
/// `i`: its contents and where it ends.
pub open spec fn string_value(s: Seq<char>, i: int) -> Option<(Seq<char>, int)> {
    let literal = s[i] == '\'';
    if i + 2 < s.len() && s[i + 1] == s[i] && s[i + 2] == s[i] {
        multiline_string(s, i, literal)
    } else {
        quoted_string(s, i + 1, literal)
    }
}

} // verus!
