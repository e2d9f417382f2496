//! What the writer writes, the reader reads back: the value syntax of a
//! written value, wherever it stands in a document, reads as that value.

use vstd::prelude::*;

use crate::datetime::{spec_scan, valid_datetime, datetime_text, law_datetime_reads_back, Datetime, looks_like_time, ScanError};
use crate::grammar::{closes_value, is_value_end, token_end, value_end_ok, starts_with_at, bool_value, string_value, basic_string};
use crate::number::{float_literal, unsigned_float_literal, float_shape, canonical_int_digits, digits_only, spec_number, law_integer_reads_back, Number};
use crate::parser::{value_tree, number_tree, starts_number, items_tree, entries_tree, dotted_insert, tree_has};
use crate::ser::{inline_text, string_literal, escaped, escape_char, lemma_escaped_front, lemma_reads_back, bool_text};
use crate::text::{is_digit, all_digits, int_text, dec_digits, lemma_dec_digits_are_digits};
use crate::value::{Float, Tree, Value, tree_of, trees_of, entries_view, lemma_table_tree, lemma_trees_of};
use crate::map::{Table, distinct_keys, lemma_entry_decreases};
use crate::grammar::{simple_key, dotted_key, key_tail, spaces_end, trivia_end, is_bare_key_char, bare_key_end, newline_len};
use crate::ser::{key_text, is_bare_key, items_text, pairs_text, separator};

verus! {

/// A bare token read at `j` ends at `e` when it holds no value-ending
/// character and one (or the end of the text) follows it.
proof fn lemma_token_end_at(s: Seq<char>, j: int, e: int)
    requires
        0 <= j <= e <= s.len(),
        forall|k: int| j <= k < e ==> !(#[trigger] is_value_end(s[k])),
        e == s.len() || is_value_end(s[e]),
    ensures
        token_end(s, j) == e,
    decreases e - j,
{
    if j < e {
        lemma_token_end_at(s, j + 1, e);
    }
}

/// A written string reads back in place.
proof fn lemma_string_at(pre: Seq<char>, s: Seq<char>, rest: Seq<char>)
    requires
        closes_value(rest),
    ensures
        value_tree(pre + string_literal(s) + rest, pre.len() as int) == Some(
            (Tree::Str(s), (pre.len() + string_literal(s).len()) as int),
        ),
{
    let text = string_literal(s);
    let t = pre + text + rest;
    let p = pre.len() as int;
    let q = pre + seq!['"'];
    assert(t =~= q + escaped(s) + (seq!['"'] + rest));
    lemma_reads_back(q, s, seq!['"'] + rest);
    assert(t[p] == '"');
    if s.len() == 0 {
        assert(escaped(s) =~= Seq::<char>::empty());
        assert(t[p + 1] == '"');
        if p + 2 < t.len() {
            assert(t[p + 2] == rest[0]);
        }
    } else {
        lemma_escaped_front(s[0], s.drop_first());
        assert(seq![s[0]] + s.drop_first() =~= s);
        assert(t[p + 1] == escape_char(s[0])[0]);
    }
}

/// A written boolean reads back in place.
proof fn lemma_bool_at(pre: Seq<char>, b: bool, rest: Seq<char>)
    requires
        closes_value(rest),
    ensures
        value_tree(pre + bool_text(b) + rest, pre.len() as int) == Some(
            (Tree::Bool(b), (pre.len() + bool_text(b).len()) as int),
        ),
{
    let t = pre + bool_text(b) + rest;
    let p = pre.len() as int;
    reveal_strlit("true");
    reveal_strlit("false");
    if b {
        assert(t.subrange(p, p + 4) =~= "true"@);
        if t.len() > p + 4 {
            assert(t[p + 4] == rest[0]);
        }
    } else {
        assert(t.subrange(p, p + 5) =~= "false"@);
        if t.len() > p + 5 {
            assert(t[p + 5] == rest[0]);
        }
        assert(!starts_with_at(t, p, "true"@)) by {
            if starts_with_at(t, p, "true"@) {
                assert(t.subrange(p, p + 4)[0] == 't');
            }
        }
    }
    assert(t[p] == bool_text(b)[0]);
}

/// A written integer reads back in place.
proof fn lemma_int_at(pre: Seq<char>, i: i64, rest: Seq<char>)
    requires
        closes_value(rest),
    ensures
        value_tree(pre + int_text(i as int) + rest, pre.len() as int) == Some(
            (Tree::Int(i as int), (pre.len() + int_text(i as int).len()) as int),
        ),
{
    let text = int_text(i as int);
    let t = pre + text + rest;
    let p = pre.len() as int;
    let len = text.len() as int;
    law_integer_reads_back(i);
    let neg = i < 0;
    let n: nat = if neg { (-(i as int)) as nat } else { i as nat };
    lemma_dec_digits_are_digits(n);
    let d = dec_digits(n);
    if neg {
        assert(text =~= seq!['-'] + d);
    } else {
        assert(text == d);
    }
    assert forall|k: int| 0 <= k < len implies (k > 0 || !neg ==> is_digit(#[trigger] t[p + k])) && (k == 0 && neg
        ==> t[p + k] == '-') by {
        assert(t[p + k] == text[k]);
        if neg {
            if k > 0 {
                assert(text[k] == d[k - 1]);
                assert(is_digit(d[k - 1]));
            }
        } else {
            assert(is_digit(d[k]));
        }
    }
    assert forall|k: int| p <= k < p + len implies !(#[trigger] is_value_end(t[k])) by {
        if k > p || !neg {
            assert(is_digit(t[p + (k - p)]));
        } else {
            assert(t[p + 0] == '-');
        }
    }
    if p + len < t.len() {
        assert(t[p + len] == rest[0]);
    }
    lemma_token_end_at(t, p, p + len);
    assert(t.subrange(p, p + len) =~= text);
    assert(is_digit(t[p + 0]) || t[p + 0] == '-');
    assert(starts_number(t[p]));
    assert(!(t.len() - p >= 5 && t[p + 4] == '-' && all_digits(t, p, p + 4))) by {
        if t.len() - p >= 5 && t[p + 4] == '-' && all_digits(t, p, p + 4) {
            assert(is_digit(t[p + 0]));
            if len >= 5 {
                assert(is_digit(t[p + 4]));
            } else if len == 4 {
                assert(t[p + 4] == rest[0]);
            } else {
                assert(t[p + len] == rest[0]);
                assert(is_digit(t[p + len]));
            }
        }
    }
    assert(!looks_like_time(t, p)) by {
        if looks_like_time(t, p) {
            assert(is_digit(t[p + 0]));
            assert(is_digit(t[p + 1]));
            if len >= 3 {
                assert(is_digit(t[p + 2]));
            } else if len == 2 {
                assert(t[p + 2] == rest[0]);
            } else {
                assert(t[p + 1] == rest[0]);
            }
        }
    }
    assert(spec_scan(t, p) == Ok::<Option<(Datetime, int)>, ScanError>(None));
}

/// A written date-time reads back in place.
proof fn lemma_datetime_at(pre: Seq<char>, dt: Datetime, rest: Seq<char>)
    requires
        valid_datetime(dt),
        closes_value(rest),
    ensures
        value_tree(pre + datetime_text(dt) + rest, pre.len() as int) == Some(
            (Tree::Dt(dt), (pre.len() + datetime_text(dt).len()) as int),
        ),
{
    let text = datetime_text(dt);
    let t = pre + text + rest;
    let p = pre.len() as int;
    law_datetime_reads_back(pre, dt, rest);
    crate::parser::lemma_datetime_starts_with_digit(dt);
    assert(t[p] == text[0]);
    if p + text.len() < t.len() {
        assert(t[p + text.len()] == rest[0]);
    }
}


/// The characters of a canonical float literal: at least three, none of
/// them ending a value or a colon, and a minus sign only first or after a
/// non-digit (the exponent's `e`).
proof fn lemma_float_chars(t: Seq<char>)
    requires
        float_literal(t),
    ensures
        t.len() >= 3,
        forall|k: int| 0 <= k < t.len() ==> !is_value_end(#[trigger] t[k]) && t[k] != ':' && t[k] != '"'
            && t[k] != '\'' && t[k] != '[' && t[k] != '{',
        forall|k: int| 0 < k < t.len() && #[trigger] t[k] == '-' ==> !is_digit(t[k - 1]),
        starts_number(t[0]),
        t[0] != 't' && t[0] != 'f',
{
    let neg = t.len() > 0 && t[0] == '-';
    let r = if neg { t.drop_first() } else { t };
    let o: int = if neg { 1 } else { 0 };
    assert forall|k: int| 0 <= k < r.len() implies #[trigger] r[k] == t[k + o] by {}
    reveal_strlit("inf");
    reveal_strlit("nan");
    if r == "inf"@ || r == "nan"@ {
        assert(r.len() == 3);
        assert forall|k: int| 0 <= k < t.len() implies !is_value_end(#[trigger] t[k]) && t[k] != ':' && t[k] != '"'
            && t[k] != '\'' && t[k] != '[' && t[k] != '{' by {
            if k >= o {
                assert(t[k] == r[k - o]);
            }
        }
        assert forall|k: int| 0 < k < t.len() && #[trigger] t[k] == '-' implies !is_digit(t[k - 1]) by {
            assert(t[k] == r[k - o]);
        }
        if !neg {
            assert(t[0] == r[0]);
        }
    } else {
        let (a, b) = choose|a: int, b: int| float_shape(r, a, b);
        assert(float_shape(r, a, b));
        let c = if b + 1 < r.len() && (r[b + 1] == '+' || r[b + 1] == '-') { b + 2 } else { b + 1 };
        assert forall|k: int| 0 <= k < a implies #[trigger] is_digit(r[k]) by {
            assert(r.subrange(0, a)[k] == r[k]);
        }
        assert forall|k: int| a < k < b implies #[trigger] is_digit(r[k]) by {
            assert(r.subrange(a + 1, b)[k - a - 1] == r[k]);
        }
        assert forall|k: int| b < r.len() && c <= k < r.len() implies #[trigger] is_digit(r[k]) by {
            assert(r.subrange(c, r.len() as int)[k - c] == r[k]);
        }
        assert(r.len() >= 3) by {
            if a < b {
                assert(r.subrange(a + 1, b).len() > 0);
            } else {
                assert(r.subrange(c, r.len() as int).len() > 0);
            }
        }
        assert forall|k: int| 0 <= k < r.len() implies (is_digit(#[trigger] r[k]) || r[k] == '.' || r[k] == 'e'
            || r[k] == 'E' || r[k] == '+' || r[k] == '-') && (r[k] == '-' ==> k > 0 && (r[k - 1] == 'e'
            || r[k - 1] == 'E')) by {
            if k < a {
            } else if k == a && a < b {
            } else if k < b {
            } else if k == b {
            } else if k == b + 1 && c == b + 2 {
            } else {
                assert(is_digit(r[k]));
            }
        }
        assert forall|k: int| 0 <= k < t.len() implies !is_value_end(#[trigger] t[k]) && t[k] != ':' && t[k] != '"'
            && t[k] != '\'' && t[k] != '[' && t[k] != '{' by {
            if k >= o {
                assert(t[k] == r[k - o]);
            }
        }
        assert forall|k: int| 0 < k < t.len() && #[trigger] t[k] == '-' implies !is_digit(t[k - 1]) by {
            assert(t[k] == r[k - o]);
            if k - o - 1 >= 0 {
                assert(t[k - 1] == r[k - o - 1]);
            }
        }
        if !neg {
            assert(t[0] == r[0]);
            assert(is_digit(r[0]));
        }
    }
}

/// A written float reads back in place.
proof fn lemma_float_at(pre: Seq<char>, t: Seq<char>, rest: Seq<char>)
    requires
        float_literal(t),
        spec_number(t) == Some(Number::Float(t)),
        closes_value(rest),
    ensures
        value_tree(pre + t + rest, pre.len() as int) == Some((Tree::Float(t), (pre.len() + t.len()) as int)),
{
    let s = pre + t + rest;
    let p = pre.len() as int;
    let len = t.len() as int;
    lemma_float_chars(t);
    assert forall|k: int| 0 <= k < len implies #[trigger] s[p + k] == t[k] by {}
    assert forall|k: int| p <= k < p + len implies !(#[trigger] is_value_end(s[k])) by {
        assert(s[k] == t[k - p]);
    }
    if p + len < s.len() {
        assert(s[p + len] == rest[0]);
    }
    lemma_token_end_at(s, p, p + len);
    assert(s.subrange(p, p + len) =~= t);
    assert(s[p] == t[0]);
    assert(!(s.len() - p >= 5 && s[p + 4] == '-' && all_digits(s, p, p + 4))) by {
        if s.len() - p >= 5 && s[p + 4] == '-' && all_digits(s, p, p + 4) {
            if len >= 5 {
                assert(s[p + 4] == t[4]);
                assert(s[p + 3] == t[3]);
                assert(is_digit(s[p + 3]));
            } else if len == 4 {
                assert(s[p + 4] == rest[0]);
            } else {
                assert(s[p + 3] == rest[0]);
                assert(is_digit(s[p + 3]));
            }
        }
    }
    assert(!looks_like_time(s, p)) by {
        assert(s[p + 2] == t[2]);
    }
    assert(spec_scan(s, p) == Ok::<Option<(Datetime, int)>, ScanError>(None));
}


/// Whether the reader reads `v` back from what the writer writes for it:
/// every float holds a literal that reads back as itself and every table
/// has each key once (which the types guarantee of every value), and every
/// date-time is a valid one.
pub open spec fn readable(v: Value) -> bool
    decreases v, 0int, 0int,
{
    match v {
        Value::Float(f) => float_literal(f@) && spec_number(f@) == Some(Number::Float(f@)),
        Value::Datetime(dt) => valid_datetime(dt),
        Value::Array(a) => readable_items(a@, a@.len() as int),
        Value::Table(t) => distinct_keys(t@) && readable_entries(t, t@.len() as int),
        _ => true,
    }
}

/// Whether the first `n` items of an array are readable.
pub open spec fn readable_items(a: Seq<Value>, n: int) -> bool
    decreases a, n,
{
    if n <= 0 || n > a.len() {
        true
    } else {
        readable_items(a, n - 1) && readable(a[n - 1])
    }
}

/// Whether the values of the first `n` entries of a table are readable.
pub open spec fn readable_entries(t: Table, n: int) -> bool
    decreases t, n,
{
    if n <= 0 || n > t@.len() {
        true
    } else {
        proof {
            lemma_entry_decreases(t, n - 1);
        }
        readable_entries(t, n - 1) && readable(t@[n - 1].1)
    }
}

/// Each of the first `n` items of a readable array is readable.
proof fn lemma_readable_item(a: Seq<Value>, n: int, k: int)
    requires
        readable_items(a, n),
        0 <= k < n <= a.len(),
    ensures
        readable(a[k]),
    decreases n,
{
    if k < n - 1 {
        lemma_readable_item(a, n - 1, k);
    }
}

/// Each of the first `n` entries of a readable table is readable.
proof fn lemma_readable_entry(t: Table, n: int, k: int)
    requires
        readable_entries(t, n),
        0 <= k < n <= t@.len(),
    ensures
        readable(t@[k].1),
    decreases n,
{
    if k < n - 1 {
        lemma_readable_entry(t, n - 1, k);
    }
}

/// A run of bare-key characters ends where one is followed by something
/// else.
proof fn lemma_bare_key_end(t: Seq<char>, i: int, n: int)
    requires
        0 <= i <= n <= t.len(),
        forall|k: int| i <= k < n ==> #[trigger] is_bare_key_char(t[k]),
        n == t.len() || !is_bare_key_char(t[n]),
    ensures
        bare_key_end(t, i) == n,
    decreases n - i,
{
    if i < n {
        lemma_bare_key_end(t, i + 1, n);
    }
}

/// A written key reads back in place, whenever what follows it cannot be
/// taken for more of a bare key.
pub proof fn lemma_key_at(pre: Seq<char>, k: Seq<char>, rest: Seq<char>)
    requires
        rest.len() == 0 || !is_bare_key_char(rest[0]),
    ensures
        simple_key(pre + key_text(k) + rest, pre.len() as int) == Some(
            (k, (pre.len() + key_text(k).len()) as int),
        ),
{
    let t = pre + key_text(k) + rest;
    let p = pre.len() as int;
    if is_bare_key(k) {
        assert forall|j: int| p <= j < p + k.len() implies #[trigger] is_bare_key_char(t[j]) by {
            assert(t[j] == k[j - p]);
        }
        if p + k.len() < t.len() {
            assert(t[p + k.len()] == rest[0]);
        }
        lemma_bare_key_end(t, p, p + k.len());
        assert(t.subrange(p, p + k.len()) =~= k);
        assert(t[p] == k[0]);
    } else {
        let q = pre + seq!['"'];
        assert(t =~= q + escaped(k) + (seq!['"'] + rest));
        lemma_reads_back(q, k, seq!['"'] + rest);
        assert(t[p] == '"');
    }
}

/// The first character of a written value: never one that trivia, a
/// separator or a closing bracket starts with.
proof fn lemma_first_char(v: Value)
    requires
        readable(v),
    ensures
        inline_text(v).len() > 0,
        ({
            let c = inline_text(v)[0];
            c != ' ' && c != '\t' && c != '\n' && c != '\r' && c != '#' && c != ',' && c != ']' && c != '}'
        }),
{
    match v {
        Value::String(s) => {},
        Value::Integer(i) => {
            let n: nat = if i < 0 { (-(i as int)) as nat } else { i as nat };
            lemma_dec_digits_are_digits(n);
            if i < 0 {
                assert(int_text(i as int) =~= seq!['-'] + dec_digits(n));
            } else {
                assert(int_text(i as int) == dec_digits(n));
                assert(all_digits(dec_digits(n), 0, dec_digits(n).len() as int));
                assert(is_digit(dec_digits(n)[0]));
            }
        },
        Value::Float(f) => {
            lemma_float_chars(f@);
        },
        Value::Boolean(b) => {},
        Value::Datetime(dt) => {
            crate::parser::lemma_datetime_starts_with_digit(dt);
        },
        Value::Array(a) => {},
        Value::Table(t) => {},
    }
}

/// Trivia ends at once where none starts.
proof fn lemma_no_trivia(s: Seq<char>, q: int)
    requires
        0 <= q < s.len(),
        s[q] != ' ' && s[q] != '\t' && s[q] != '\n' && s[q] != '\r' && s[q] != '#',
    ensures
        trivia_end(s, q) == Some(q),
{
    assert(newline_len(s, q) == 0);
}

/// A single space, then no trivia.
proof fn lemma_one_space(s: Seq<char>, q: int)
    requires
        0 <= q,
        q + 1 < s.len(),
        s[q] == ' ',
        s[q + 1] != ' ' && s[q + 1] != '\t' && s[q + 1] != '\n' && s[q + 1] != '\r' && s[q + 1] != '#',
    ensures
        trivia_end(s, q) == Some(q + 1),
{
    lemma_no_trivia(s, q + 1);
}

/// The text of the first `m` items of an array begins the text of the first
/// `n`, for `m <= n`.
proof fn lemma_items_text_prefix(a: Seq<Value>, m: int, n: int)
    requires
        0 <= m <= n <= a.len(),
    ensures
        items_text(a, m).len() <= items_text(a, n).len(),
        items_text(a, n).subrange(0, items_text(a, m).len() as int) == items_text(a, m),
    decreases n,
{
    if m < n {
        lemma_items_text_prefix(a, m, n - 1);
        let x = items_text(a, n - 1);
        let y = items_text(a, n);
        assert(y == x + separator(n) + inline_text(a[n - 1]));
        assert(y.subrange(0, items_text(a, m).len() as int) =~= x.subrange(0, items_text(a, m).len() as int));
    } else {
        assert(items_text(a, n).subrange(0, items_text(a, n).len() as int) =~= items_text(a, n));
    }
}

/// The text of the first `m` entries of a table begins the text of the
/// first `n`, for `m <= n`.
proof fn lemma_pairs_text_prefix(t: Table, m: int, n: int)
    requires
        0 <= m <= n <= t@.len(),
    ensures
        pairs_text(t, m).len() <= pairs_text(t, n).len(),
        pairs_text(t, n).subrange(0, pairs_text(t, m).len() as int) == pairs_text(t, m),
    decreases n,
{
    if m < n {
        lemma_pairs_text_prefix(t, m, n - 1);
        let x = pairs_text(t, n - 1);
        let y = pairs_text(t, n);
        assert(y == x + separator(n) + key_text(t@[n - 1].0) + seq![' ', '=', ' '] + inline_text(t@[n - 1].1));
        assert(y.subrange(0, pairs_text(t, m).len() as int) =~= x.subrange(0, pairs_text(t, m).len() as int));
    } else {
        assert(pairs_text(t, n).subrange(0, pairs_text(t, n).len() as int) =~= pairs_text(t, n));
    }
}


/// What the writer writes for a value, the reader reads back: wherever the
/// text stands, and whatever value-closing text follows it, reading a value
/// there gives the value written and stops where its text ends.
pub proof fn law_value_reads_back(pre: Seq<char>, v: Value, rest: Seq<char>)
    requires
        readable(v),
        closes_value(rest),
    ensures
        value_tree(pre + inline_text(v) + rest, pre.len() as int) == Some(
            (tree_of(v), (pre.len() + inline_text(v).len()) as int),
        ),
    decreases v, 2int, 0int,
{
    match v {
        Value::String(x) => lemma_string_at(pre, x@, rest),
        Value::Integer(i) => lemma_int_at(pre, i, rest),
        Value::Float(f) => lemma_float_at(pre, f@, rest),
        Value::Boolean(b) => lemma_bool_at(pre, b, rest),
        Value::Datetime(dt) => lemma_datetime_at(pre, dt, rest),
        Value::Array(_) => lemma_array_at(pre, v, rest),
        Value::Table(_) => lemma_table_at(pre, v, rest),
    }
}

/// [`law_value_reads_back`] for an array.
#[verifier::spinoff_prover]
proof fn lemma_array_at(pre: Seq<char>, v: Value, rest: Seq<char>)
    requires
        v is Array,
        readable(v),
        closes_value(rest),
    ensures
        value_tree(pre + inline_text(v) + rest, pre.len() as int) == Some(
            (tree_of(v), (pre.len() + inline_text(v).len()) as int),
        ),
    decreases v, 1int, 0int,
{
    let text = inline_text(v);
    let s = pre + text + rest;
    let p = pre.len() as int;
    let arr = v->Array_0;
    let a = arr@;
    let n = a.len() as int;
    let whole = items_text(a, n);
    assert(text == seq!['['] + whole + seq![']']);
    assert forall|j: int| 0 <= j < text.len() implies #[trigger] s[p + j] == text[j] by {}
    assert(s[p] == '[');
    lemma_trees_of(a);
    if n == 0 {
        assert(whole =~= Seq::<char>::empty());
        assert(s[p + 1] == text[1]);
        lemma_no_trivia(s, p + 1);
        assert(trees_of(a) =~= Seq::<Tree>::empty());
    } else {
        assert(s.subrange(p + 1, p + 1 + whole.len()) =~= whole) by {
            assert forall|j: int| 0 <= j < whole.len() implies #[trigger] s.subrange(p + 1, p + 1 + whole.len())[j]
                == whole[j] by {
                assert(s[p + 1 + j] == text[1 + j]);
            }
        }
        assert(s[p + 1 + whole.len()] == text[(1 + whole.len()) as int]);
        assert(decreases_to!(v => arr));
        assert(decreases_to!(arr => arr@));
        lemma_items_at(s, p + 1, a, 0);
        assert(items_text(a, 0) =~= Seq::<char>::empty());
        assert(trees_of(a).skip(0) =~= trees_of(a));
    }
}

/// [`law_value_reads_back`] for a table.
#[verifier::spinoff_prover]
proof fn lemma_table_at(pre: Seq<char>, v: Value, rest: Seq<char>)
    requires
        v is Table,
        readable(v),
        closes_value(rest),
    ensures
        value_tree(pre + inline_text(v) + rest, pre.len() as int) == Some(
            (tree_of(v), (pre.len() + inline_text(v).len()) as int),
        ),
    decreases v, 1int, 0int,
{
    let text = inline_text(v);
    let s = pre + text + rest;
    let p = pre.len() as int;
    let t = v->Table_0;
    let n = t@.len() as int;
    lemma_table_tree(t);
    assert forall|j: int| 0 <= j < text.len() implies #[trigger] s[p + j] == text[j] by {}
    assert(s[p] == '{');
    if n == 0 {
        assert(s[p + 1] == text[1]);
        lemma_no_trivia(s, p + 1);
        assert(entries_view(t@) =~= Seq::<(Seq<char>, Tree)>::empty());
    } else {
        let whole = pairs_text(t, n);
        assert(text == seq!['{', ' '] + whole + seq![' ', '}']);
        assert(s.subrange(p + 2, p + 2 + whole.len()) =~= whole) by {
            assert forall|j: int| 0 <= j < whole.len() implies #[trigger] s.subrange(p + 2, p + 2 + whole.len())[j]
                == whole[j] by {
                assert(s[p + 2 + j] == text[2 + j]);
            }
        }
        assert(s[p + 1] == text[1]);
        assert(s[p + 2 + whole.len()] == text[(2 + whole.len()) as int]);
        assert(s[p + 3 + whole.len()] == text[(3 + whole.len()) as int]);
        assert(decreases_to!(v => t));
        lemma_entries_at(s, p + 2, t, 0);
        assert(pairs_text(t, 0) =~= Seq::<char>::empty());
        assert(entries_view(t@).take(0) =~= Seq::<(Seq<char>, Tree)>::empty());
    }
}

/// The items of a written array, read from the `k`-th on: `p` is where the
/// text of the items starts, just after the `[`.
#[verifier::spinoff_prover]
#[verifier::rlimit(60)]
proof fn lemma_items_at(s: Seq<char>, p: int, a: Seq<Value>, k: int)
    requires
        0 <= k < a.len(),
        readable_items(a, a.len() as int),
        0 <= p,
        p + items_text(a, a.len() as int).len() < s.len(),
        s.subrange(p, p + items_text(a, a.len() as int).len()) == items_text(a, a.len() as int),
        s[p + items_text(a, a.len() as int).len()] == ']',
    ensures
        items_tree(s, p + items_text(a, k).len() + (if k > 0 { 1int } else { 0int })) == Some(
            (trees_of(a).skip(k), p + items_text(a, a.len() as int).len() + 1),
        ),
    decreases a, 0int, a.len() - k,
{
    let n = a.len() as int;
    let whole = items_text(a, n);
    let e = p + whole.len();
    let x = items_text(a, k);
    let x1 = items_text(a, k + 1);
    lemma_items_text_prefix(a, k + 1, n);
    let sep = separator(k + 1);
    assert(x1 == x + sep + inline_text(a[k]));
    let v = a[k];
    let vt = inline_text(v);
    let st = p + x.len() + sep.len();
    let en = p + x1.len();
    let q = p + x.len() + (if k > 0 { 1int } else { 0int });
    assert forall|j: int| 0 <= j < x1.len() implies #[trigger] s[p + j] == x1[j] by {
        assert(s.subrange(p, e)[j] == whole[j]);
        assert(whole.subrange(0, x1.len() as int)[j] == x1[j]);
    }
    lemma_readable_item(a, n, k);
    lemma_first_char(v);
    assert(s.subrange(st, en) =~= vt) by {
        assert forall|j: int| 0 <= j < vt.len() implies #[trigger] s.subrange(st, en)[j] == vt[j] by {
            assert(s[p + (x.len() + sep.len() + j)] == x1[x.len() + sep.len() + j]);
        }
    }
    let pre2 = s.subrange(0, st);
    let rest2 = s.subrange(en, s.len() as int);
    assert(s =~= pre2 + vt + rest2);
    if k + 1 < n {
        lemma_items_text_prefix(a, k + 2, n);
        let x2 = items_text(a, k + 2);
        assert(x2 == x1 + separator(k + 2) + inline_text(a[k + 1]));
        assert(s[en] == x2[x1.len() as int]) by {
            assert(s.subrange(p, e)[x1.len() as int] == whole[x1.len() as int]);
            assert(whole.subrange(0, x2.len() as int)[x1.len() as int] == x2[x1.len() as int]);
        }
        assert(s[en] == ',');
    } else {
        assert(en == e);
    }
    assert(rest2[0] == s[en]);
    assert(decreases_to!(a => a[k]));
    law_value_reads_back(pre2, v, rest2);
    assert(s[st] == vt[0]);
    if k > 0 {
        assert(s[q] == x1[(x.len() + 1) as int]);
        lemma_one_space(s, q);
    } else {
        lemma_no_trivia(s, q);
    }
    lemma_no_trivia(s, en);
    lemma_trees_of(a);
    if k + 1 < n {
        lemma_items_at(s, p, a, k + 1);
        assert(trees_of(a).skip(k) =~= seq![tree_of(a[k])] + trees_of(a).skip(k + 1));
    } else {
        assert(trees_of(a).skip(k) =~= seq![tree_of(a[k])]);
    }
}

/// The first character of a written key: a bare-key character or a quote.
proof fn lemma_key_first(k: Seq<char>)
    ensures
        key_text(k).len() > 0,
        is_bare_key_char(key_text(k)[0]) || key_text(k)[0] == '"',
{
}

/// Where the pieces of the `k`-th entry of a written inline table stand,
/// when the entries' text starts at `p`.
#[verifier::spinoff_prover]
#[verifier::rlimit(40)]
proof fn lemma_entry_text(s: Seq<char>, p: int, t: Table, k: int)
    requires
        0 <= k < t@.len(),
        distinct_keys(t@),
        readable_entries(t, t@.len() as int),
        1 <= p,
        s[p - 1] == ' ',
        p + pairs_text(t, t@.len() as int).len() + 1 < s.len(),
        s.subrange(p, p + pairs_text(t, t@.len() as int).len()) == pairs_text(t, t@.len() as int),
        s[p + pairs_text(t, t@.len() as int).len()] == ' ',
        s[p + pairs_text(t, t@.len() as int).len() + 1] == '}',
    ensures
        ({
            let x = pairs_text(t, k);
            let x1 = pairs_text(t, k + 1);
            let st = p + x.len() + separator(k + 1).len();
            let kt = key_text(t@[k].0);
            let ke = st + kt.len();
            let en = p + x1.len();
            &&& 1 <= st <= ke
            &&& ke + 3 < en
            &&& s.subrange(st, ke) == kt
            &&& s[ke] == ' ' && s[ke + 1] == '=' && s[ke + 2] == ' '
            &&& s.subrange(ke + 3, en) == inline_text(t@[k].1)
            &&& s[st - 1] == ' '
            &&& k > 0 ==> st - 1 == p + x.len() + 1
            &&& k == 0 ==> st - 1 == p - 1
            &&& k + 1 < t@.len() ==> en < s.len() && s[en] == ','
            &&& k + 1 == t@.len() ==> en == p + pairs_text(t, t@.len() as int).len()
        }),
{
    let n = t@.len() as int;
    let whole = pairs_text(t, n);
    let e = p + whole.len();
    let x = pairs_text(t, k);
    let x1 = pairs_text(t, k + 1);
    lemma_pairs_text_prefix(t, k + 1, n);
    let sep = separator(k + 1);
    let key = t@[k].0;
    let v = t@[k].1;
    let kt = key_text(key);
    let vt = inline_text(v);
    assert(x1 == x + sep + kt + seq![' ', '=', ' '] + vt);
    let st = p + x.len() + sep.len();
    let ke = st + kt.len();
    let vs = ke + 3;
    let en = p + x1.len();
    let q = st - 1;
    assert forall|j: int| 0 <= j < x1.len() implies #[trigger] s[p + j] == x1[j] by {
        assert(s.subrange(p, e)[j] == whole[j]);
        assert(whole.subrange(0, x1.len() as int)[j] == x1[j]);
    }
    lemma_readable_entry(t, n, k);
    lemma_first_char(v);
    lemma_key_first(key);
    assert(s.subrange(st, ke) =~= kt) by {
        assert forall|j: int| 0 <= j < kt.len() implies #[trigger] s.subrange(st, ke)[j] == kt[j] by {
            assert(s[p + (x.len() + sep.len() + j)] == x1[x.len() + sep.len() + j]);
        }
    }
    assert(s.subrange(vs, en) =~= vt) by {
        assert forall|j: int| 0 <= j < vt.len() implies #[trigger] s.subrange(vs, en)[j] == vt[j] by {
            assert(s[p + (x.len() + sep.len() + kt.len() + 3 + j)] == x1[x.len() + sep.len() + kt.len() + 3 + j]);
        }
    }
    assert(s[ke] == ' ') by {
        assert(s[p + (x.len() + sep.len() + kt.len())] == x1[(x.len() + sep.len() + kt.len()) as int]);
    }
    assert(s[ke + 1] == '=') by {
        assert(s[p + (x.len() + sep.len() + kt.len() + 1)] == x1[(x.len() + sep.len() + kt.len() + 1) as int]);
    }
    assert(s[ke + 2] == ' ') by {
        assert(s[p + (x.len() + sep.len() + kt.len() + 2)] == x1[(x.len() + sep.len() + kt.len() + 2) as int]);
    }
    if k > 0 {
        assert(s[q] == x1[(x.len() + 1) as int]);
    }
    if k + 1 < n {
        lemma_pairs_text_prefix(t, k + 2, n);
        let x2 = pairs_text(t, k + 2);
        assert(x2 == x1 + separator(k + 2) + key_text(t@[k + 1].0) + seq![' ', '=', ' '] + inline_text(t@[k + 1].1));
        assert(s[en] == x2[x1.len() as int]) by {
            assert(s.subrange(p, e)[x1.len() as int] == whole[x1.len() as int]);
            assert(whole.subrange(0, x2.len() as int)[x1.len() as int] == x2[x1.len() as int]);
        }
    }
}

/// The `k`-th entry of a written inline table, whose entries' text starts
/// at `p`: where its key, `=` and value stand, and what follows it.
#[verifier::spinoff_prover]
#[verifier::rlimit(60)]
proof fn lemma_entry_at(s: Seq<char>, p: int, t: Table, k: int)
    requires
        0 <= k < t@.len(),
        distinct_keys(t@),
        readable_entries(t, t@.len() as int),
        1 <= p,
        s[p - 1] == ' ',
        p + pairs_text(t, t@.len() as int).len() + 1 < s.len(),
        s.subrange(p, p + pairs_text(t, t@.len() as int).len()) == pairs_text(t, t@.len() as int),
        s[p + pairs_text(t, t@.len() as int).len()] == ' ',
        s[p + pairs_text(t, t@.len() as int).len() + 1] == '}',
    ensures
        ({
            let x = pairs_text(t, k);
            let x1 = pairs_text(t, k + 1);
            let st = p + x.len() + separator(k + 1).len();
            let ke = st + key_text(t@[k].0).len();
            let en = p + x1.len();
            &&& trivia_end(s, st - 1) == Some(st)
            &&& st < s.len() && s[st] != '}'
            &&& dotted_key(s, st) == Some((seq![t@[k].0], ke + 1))
            &&& ke + 1 < s.len() && s[ke + 1] == '='
            &&& spaces_end(s, ke + 1) == ke + 1
            &&& spaces_end(s, ke + 2) == ke + 3
            &&& value_tree(s, ke + 3) == Some((tree_of(t@[k].1), en))
            &&& ke + 3 < en
            &&& k > 0 ==> st - 1 == p + x.len() + 1
            &&& k == 0 ==> st - 1 == p - 1
            &&& k + 1 < t@.len() ==> en < s.len() && s[en] == ',' && trivia_end(s, en) == Some(en)
            &&& k + 1 == t@.len() ==> en + 1 < s.len() && trivia_end(s, en) == Some(en + 1) && s[en + 1] == '}'
        }),
    decreases t, 0int, 0int,
{
    let n = t@.len() as int;
    let x = pairs_text(t, k);
    let x1 = pairs_text(t, k + 1);
    let sep = separator(k + 1);
    let key = t@[k].0;
    let v = t@[k].1;
    let kt = key_text(key);
    let vt = inline_text(v);
    let st = p + x.len() + sep.len();
    let ke = st + kt.len();
    let vs = ke + 3;
    let en = p + x1.len();
    let q = st - 1;
    lemma_entry_text(s, p, t, k);
    lemma_readable_entry(t, n, k);
    lemma_first_char(v);
    lemma_key_first(key);
    // The key.
    let pre1 = s.subrange(0, st);
    let rest1 = s.subrange(ke, s.len() as int);
    assert(s =~= pre1 + kt + rest1);
    assert(rest1[0] == ' ');
    lemma_key_at(pre1, key, rest1);
    assert(spaces_end(s, ke + 1) == ke + 1);
    assert(spaces_end(s, ke) == ke + 1);
    assert(key_tail(s, ke) == Some((Seq::<Seq<char>>::empty(), ke + 1)));
    assert(seq![key] + Seq::<Seq<char>>::empty() =~= seq![key]);
    assert(s[vs] == vt[0]) by {
        assert(s.subrange(vs, en)[0] == vt[0]);
    }
    assert(spaces_end(s, vs) == vs);
    assert(spaces_end(s, ke + 2) == vs);
    // The value.
    let pre2 = s.subrange(0, vs);
    let rest2 = s.subrange(en, s.len() as int);
    assert(s =~= pre2 + vt + rest2);
    assert(rest2[0] == s[en]);
    if k + 1 == n {
        assert(rest2[1] == s[en + 1]);
    }
    lemma_entry_decreases(t, k);
    law_value_reads_back(pre2, v, rest2);
    assert(s[q + 1] == kt[0]) by {
        assert(s.subrange(st, ke)[0] == kt[0]);
    }
    lemma_one_space(s, q);
    if k + 1 < n {
        lemma_no_trivia(s, en);
    } else {
        lemma_one_space(s, en);
    }
}

/// The entries of a written inline table, read from the `k`-th on: `p` is
/// where the text of the entries starts, after `{ `.
#[verifier::spinoff_prover]
#[verifier::rlimit(40)]
proof fn lemma_entries_at(s: Seq<char>, p: int, t: Table, k: int)
    requires
        0 <= k < t@.len(),
        distinct_keys(t@),
        readable_entries(t, t@.len() as int),
        1 <= p,
        s[p - 1] == ' ',
        p + pairs_text(t, t@.len() as int).len() + 1 < s.len(),
        s.subrange(p, p + pairs_text(t, t@.len() as int).len()) == pairs_text(t, t@.len() as int),
        s[p + pairs_text(t, t@.len() as int).len()] == ' ',
        s[p + pairs_text(t, t@.len() as int).len() + 1] == '}',
    ensures
        entries_tree(
            s,
            p + pairs_text(t, k).len() + (if k > 0 { 1int } else { -1int }),
            entries_view(t@).take(k),
            Set::empty(),
        ) == Some((entries_view(t@), p + pairs_text(t, t@.len() as int).len() + 2)),
    decreases t, 1int, t@.len() - k,
{
    let n = t@.len() as int;
    lemma_entry_at(s, p, t, k);
    let key = t@[k].0;
    let v = t@[k].1;
    let acc = entries_view(t@).take(k);
    assert(!tree_has(acc, key)) by {
        if tree_has(acc, key) {
            let i = choose|i: int| 0 <= i < acc.len() && #[trigger] acc[i].0 == key;
            assert(acc[i].0 == t@[i].0);
        }
    }
    assert(acc.push((key, tree_of(v))) =~= entries_view(t@).take(k + 1));
    assert(dotted_insert(acc, seq![key], 0, tree_of(v), Set::empty()) == Some(
        (entries_view(t@).take(k + 1), Set::<Seq<Seq<char>>>::empty()),
    ));
    if k + 1 < n {
        lemma_entries_at(s, p, t, k + 1);
    } else {
        assert(entries_view(t@).take(n) =~= entries_view(t@));
    }
}

} // verus!
