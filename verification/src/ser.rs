//! Writing values back out as TOML.

use vstd::prelude::*;

use crate::grammar::{
    is_bare_key_char, basic_string, escape_at, all_hex, is_control, simple_key, bare_key_end, multiline_body,
    multiline_string, quote_run, spaces_end, newline_len, stray_cr, line_ending_backslash,
};
use crate::number::{is_radix_digit, radix_digit_val, radix_value};
use crate::text::{push_char, push_str, str_chars, int_text, push_int};
use crate::datetime::datetime_text;
use crate::error::join;
use crate::map::{Table, lemma_entry_decreases};
use crate::value::Value;

verus! {

/// The uppercase hexadecimal digit for `d`, which is below 16.
pub open spec fn hex_upper(d: int) -> char {
    if d < 10 {
        ((d + 48) as u32) as char
    } else {
        ((d + 55) as u32) as char
    }
}

/// How a character is written inside a basic string.
pub open spec fn escape_char(c: char) -> Seq<char> {
    if c == '"' {
        seq!['\\', '"']
    } else if c == '\\' {
        seq!['\\', '\\']
    } else if c == '\u{8}' {
        seq!['\\', 'b']
    } else if c == '\t' {
        seq!['\\', 't']
    } else if c == '\n' {
        seq!['\\', 'n']
    } else if c == '\u{c}' {
        seq!['\\', 'f']
    } else if c == '\r' {
        seq!['\\', 'r']
    } else if c < ' ' || c == '\u{7f}' {
        seq!['\\', 'u', '0', '0', hex_upper((c as int) / 16), hex_upper((c as int) % 16)]
    } else {
        seq![c]
    }
}

/// The characters of `s`, each written as inside a basic string.
pub open spec fn escaped(s: Seq<char>) -> Seq<char>
    decreases s.len(),
{
    if s.len() == 0 {
        Seq::empty()
    } else {
        escaped(s.drop_last()) + escape_char(s.last())
    }
}

/// `s` as a basic string, quotes included.
pub open spec fn string_literal(s: Seq<char>) -> Seq<char> {
    seq!['"'] + escaped(s) + seq!['"']
}

/// Whether `k` can be written as a bare key.
pub open spec fn is_bare_key(k: Seq<char>) -> bool {
    k.len() > 0 && forall|i: int| 0 <= i < k.len() ==> #[trigger] is_bare_key_char(k[i])
}

/// How a key is written: bare when it can be, quoted otherwise.
pub open spec fn key_text(k: Seq<char>) -> Seq<char> {
    if is_bare_key(k) {
        k
    } else {
        string_literal(k)
    }
}

/// Appends the uppercase hexadecimal digit for `d`.
fn push_hex_digit(out: &mut String, d: u32)
    requires
        d < 16,
    ensures
        final(out)@ == old(out)@.push(hex_upper(d as int)),
{
    let c: char = if d < 10 {
        ((d + 48) as u8) as char
    } else {
        ((d + 55) as u8) as char
    };
    assert(c == hex_upper(d as int)) by {
        vstd::utf8::char_u32_cast(c, c as u32);
    }
    push_char(out, c);
}

/// Appends `c` as it is written inside a basic string.
fn push_escaped_char(out: &mut String, c: char)
    ensures
        final(out)@ == old(out)@ + escape_char(c),
{
    let ghost o = out@;
    if c == '"' {
        push_char(out, '\\');
        push_char(out, '"');
    } else if c == '\\' {
        push_char(out, '\\');
        push_char(out, '\\');
    } else if c == '\u{8}' {
        push_char(out, '\\');
        push_char(out, 'b');
    } else if c == '\t' {
        push_char(out, '\\');
        push_char(out, 't');
    } else if c == '\n' {
        push_char(out, '\\');
        push_char(out, 'n');
    } else if c == '\u{c}' {
        push_char(out, '\\');
        push_char(out, 'f');
    } else if c == '\r' {
        push_char(out, '\\');
        push_char(out, 'r');
    } else if c < ' ' || c == '\u{7f}' {
        push_char(out, '\\');
        push_char(out, 'u');
        push_char(out, '0');
        push_char(out, '0');
        let code = c as u32;
        push_hex_digit(out, code / 16);
        push_hex_digit(out, code % 16);
    } else {
        push_char(out, c);
    }
    assert(out@ =~= o + escape_char(c));
}

/// Appends `value` as a basic string, escaping what must be escaped.
pub fn write_string(out: &mut String, value: &str)
    ensures
        final(out)@ == old(out)@ + string_literal(value@),
{
    let cs = str_chars(value);
    push_char(out, '"');
    let ghost start = out@;
    let mut i: usize = 0;
    while i < cs.len()
        invariant
            i <= cs.len(),
            cs@ == value@,
            out@ == start + escaped(cs@.take(i as int)),
        decreases cs.len() - i,
    {
        push_escaped_char(out, cs[i]);
        assert(cs@.take(i + 1).drop_last() =~= cs@.take(i as int));
        i += 1;
    }
    assert(cs@.take(cs.len() as int) =~= cs@);
    push_char(out, '"');
    assert(out@ =~= old(out)@ + string_literal(value@));
}

/// Renders a key, quoting it only when it cannot be written bare.
pub fn key_to_string(key: &str) -> (s: String)
    ensures
        s@ == key_text(key@),
{
    let cs = str_chars(key);
    let mut bare = cs.len() > 0;
    let mut i: usize = 0;
    while i < cs.len()
        invariant
            i <= cs.len(),
            cs@ == key@,
            bare == (cs.len() > 0 && forall|j: int| 0 <= j < i ==> #[trigger] is_bare_key_char(cs@[j])),
        decreases cs.len() - i,
    {
        let c = cs[i];
        if !(('a' <= c && c <= 'z') || ('A' <= c && c <= 'Z') || ('0' <= c && c <= '9') || c == '_'
            || c == '-') {
            assert(!is_bare_key_char(cs@[i as int]));
            bare = false;
        }
        i += 1;
    }
    if bare {
        key.to_owned()
    } else {
        let mut out = String::new();
        write_string(&mut out, key);
        assert(out@ =~= string_literal(key@));
        out
    }
}

} // verus!

verus! {

/// `", "` when `n` is past the first item, nothing otherwise.
pub open spec fn separator(n: int) -> Seq<char> {
    if n > 1 {
        seq![',', ' ']
    } else {
        Seq::empty()
    }
}

/// How a boolean is written.
pub open spec fn bool_text(b: bool) -> Seq<char> {
    if b {
        seq!['t', 'r', 'u', 'e']
    } else {
        seq!['f', 'a', 'l', 's', 'e']
    }
}

/// A value in TOML's value syntax, with inline tables for tables.
pub open spec fn inline_text(v: Value) -> Seq<char>
    decreases v, 0int,
{
    match v {
        Value::String(s) => string_literal(s@),
        Value::Integer(i) => int_text(i as int),
        Value::Float(f) => f@,
        Value::Boolean(b) => bool_text(b),
        Value::Datetime(dt) => datetime_text(dt),
        Value::Array(a) => seq!['['] + items_text(a@, a@.len() as int) + seq![']'],
        Value::Table(t) => if t@.len() == 0 {
            seq!['{', '}']
        } else {
            seq!['{', ' '] + pairs_text(t, t@.len() as int) + seq![' ', '}']
        },
    }
}

/// The first `n` items of an array, separated by `, `.
pub open spec fn items_text(a: Seq<Value>, n: int) -> Seq<char>
    decreases a, n,
{
    if n <= 0 || n > a.len() {
        Seq::empty()
    } else {
        items_text(a, n - 1) + separator(n) + inline_text(a[n - 1])
    }
}

/// The first `n` entries of an inline table, separated by `, `.
pub open spec fn pairs_text(t: Table, n: int) -> Seq<char>
    decreases t, n,
{
    if n <= 0 || n > t@.len() {
        Seq::empty()
    } else {
        proof {
            lemma_entry_decreases(t, n - 1);
        }
        pairs_text(t, n - 1) + separator(n) + key_text(t@[n - 1].0) + seq![' ', '=', ' '] + inline_text(
            t@[n - 1].1,
        )
    }
}

/// Appends `value` in TOML's value syntax, using inline tables for tables.
pub fn write_value(out: &mut String, value: &Value)
    ensures
        final(out)@ == old(out)@ + inline_text(*value),
    decreases *value,
{
    match value {
        Value::String(s) => write_string(out, s.as_str()),
        Value::Integer(i) => push_int(out, *i),
        Value::Float(f) => push_str(out, f.as_str()),
        Value::Boolean(b) => {
            if *b {
                push_str(out, "true");
            } else {
                push_str(out, "false");
            }
            proof {
                reveal_strlit("true");
                reveal_strlit("false");
            }
        },
        Value::Datetime(dt) => dt.push_to(out),
        Value::Array(items) => {
            let ghost o = out@;
            push_char(out, '[');
            let mut i: usize = 0;
            while i < items.len()
                invariant
                    i <= items@.len(),
                    *value == Value::Array(*items),
                    out@ == o.push('[') + items_text(items@, i as int),
                decreases items@.len() - i,
            {
                if i > 0 {
                    push_char(out, ',');
                    push_char(out, ' ');
                }
                proof {
                    assert(decreases_to!(*value => value->Array_0));
                }
                write_value(out, &items[i]);
                i += 1;
                assert(out@ =~= o.push('[') + items_text(items@, i as int));
            }
            push_char(out, ']');
            assert(out@ =~= o + inline_text(*value));
        },
        Value::Table(t) => {
            let ghost o = out@;
            if t.len() == 0 {
                push_char(out, '{');
                push_char(out, '}');
                assert(out@ =~= o + inline_text(*value));
                return;
            }
            push_char(out, '{');
            push_char(out, ' ');
            let mut i: usize = 0;
            while i < t.len()
                invariant
                    i <= t@.len(),
                    *value == Value::Table(*t),
                    out@ == o + seq!['{', ' '] + pairs_text(*t, i as int),
                decreases t@.len() - i,
            {
                if i > 0 {
                    push_char(out, ',');
                    push_char(out, ' ');
                }
                let (key, child) = t.entry_at(i);
                let k = key_to_string(key);
                push_str(out, k.as_str());
                push_char(out, ' ');
                push_char(out, '=');
                push_char(out, ' ');
                proof {
                    lemma_entry_decreases(*t, i as int);
                    assert(decreases_to!(*value => value->Table_0));
                }
                write_value(out, child);
                i += 1;
                assert(out@ =~= o + seq!['{', ' '] + pairs_text(*t, i as int));
            }
            push_char(out, ' ');
            push_char(out, '}');
            assert(out@ =~= o + inline_text(*value));
        },
    }
}

} // verus!

verus! {

/// `4 * level` spaces.
pub open spec fn indent(level: nat) -> Seq<char> {
    Seq::new(4 * level, |_i: int| ' ')
}

/// How a character is written inside a multi-line basic string: a newline
/// stays as it is, everything else as in a basic string.
pub open spec fn escape_char_multiline(c: char) -> Seq<char> {
    if c == '\n' {
        seq!['\n']
    } else {
        escape_char(c)
    }
}

/// The characters of `s`, each written as inside a multi-line basic string.
pub open spec fn escaped_multiline(s: Seq<char>) -> Seq<char>
    decreases s.len(),
{
    if s.len() == 0 {
        Seq::empty()
    } else {
        escaped_multiline(s.drop_last()) + escape_char_multiline(s.last())
    }
}

/// `s` as a multi-line basic string: the opening delimiter, a newline (which
/// a reader drops), the contents and the closing delimiter.
pub open spec fn multiline_literal(s: Seq<char>) -> Seq<char> {
    seq!['"', '"', '"', '\n'] + escaped_multiline(s) + seq!['"', '"', '"']
}

/// A value laid out for a reader at nesting `level`: a non-empty array one
/// item per line, a string holding a newline as a multi-line string, and
/// anything else as in [`inline_text`].
pub open spec fn pretty_text(v: Value, level: nat) -> Seq<char>
    decreases v, 0int,
{
    match v {
        Value::String(s) => if s@.contains('\n') {
            multiline_literal(s@)
        } else {
            string_literal(s@)
        },
        Value::Array(a) => if a@.len() == 0 {
            seq!['[', ']']
        } else {
            seq!['[', '\n'] + pretty_items(a@, a@.len() as int, level) + indent(level) + seq![']']
        },
        _ => inline_text(v),
    }
}

/// The first `n` items of an array laid out one per line, one level deeper
/// than `level`.
pub open spec fn pretty_items(a: Seq<Value>, n: int, level: nat) -> Seq<char>
    decreases a, n,
{
    if n <= 0 || n > a.len() {
        Seq::empty()
    } else {
        pretty_items(a, n - 1, level) + indent(level + 1) + pretty_text(a[n - 1], level + 1) + seq![
            ',',
            '\n',
        ]
    }
}

/// How a value is written after `key = `.
pub open spec fn value_out(v: Value, pretty: bool) -> Seq<char> {
    if pretty {
        pretty_text(v, 0)
    } else {
        inline_text(v)
    }
}

/// Whether a value is written as a `[header]` section of its own: a table,
/// or a non-empty array of tables. (An empty array stays inline, as `[]`.)
pub open spec fn is_section(v: Value) -> bool {
    match v {
        Value::Table(_) => true,
        Value::Array(a) => a@.len() > 0 && forall|i: int| 0 <= i < a@.len() ==> #[trigger] a@[i] is Table,
        _ => false,
    }
}

/// Whether a table's own header can be left out: it has entries and every
/// one of them is a section, whose headers imply it.
pub open spec fn header_implied(t: Table) -> bool {
    t@.len() > 0 && forall|i: int| 0 <= i < t@.len() ==> #[trigger] is_section(t@[i].1)
}

/// The `key = value` lines for the plain entries among the first `n`.
pub open spec fn plain_lines(t: Table, n: int, pretty: bool) -> Seq<char>
    decreases n,
{
    if n <= 0 || n > t@.len() {
        Seq::empty()
    } else if is_section(t@[n - 1].1) {
        plain_lines(t, n - 1, pretty)
    } else {
        plain_lines(t, n - 1, pretty) + key_text(t@[n - 1].0) + seq![' ', '=', ' '] + value_out(
            t@[n - 1].1,
            pretty,
        ) + seq!['\n']
    }
}

/// A `[header]` or `[[header]]` line for `path`, after a blank line unless
/// nothing has been written yet.
pub open spec fn header_text(out: Seq<char>, path: Seq<Seq<char>>, array: bool) -> Seq<char> {
    (if out.len() > 0 {
        seq!['\n']
    } else {
        Seq::empty()
    }) + (if array {
        seq!['[', '[']
    } else {
        seq!['[']
    }) + join(path, seq!['.']) + (if array {
        seq![']', ']', '\n']
    } else {
        seq![']', '\n']
    })
}

/// What writing table `t`, found at `path`, makes of the output `out`:
/// its plain entries first, then its sections.
pub open spec fn doc_out(out: Seq<char>, t: Table, path: Seq<Seq<char>>, pretty: bool) -> Seq<char>
    decreases t, 1int, 0int,
{
    sections_out(out + plain_lines(t, t@.len() as int, pretty), t, path, pretty, t@.len() as int)
}

/// What writing the sections among the first `n` entries of `t` makes of
/// the output `out`.
pub open spec fn sections_out(
    out: Seq<char>,
    t: Table,
    path: Seq<Seq<char>>,
    pretty: bool,
    n: int,
) -> Seq<char>
    decreases t, 0int, n,
{
    if n <= 0 || n > t@.len() {
        out
    } else {
        proof {
            lemma_entry_decreases(t, n - 1);
        }
        let o = sections_out(out, t, path, pretty, n - 1);
        let v = t@[n - 1].1;
        let p = path.push(key_text(t@[n - 1].0));
        if !is_section(v) {
            o
        } else {
            match v {
                Value::Table(c) => doc_out(
                    if header_implied(c) {
                        o
                    } else {
                        o + header_text(o, p, false)
                    },
                    c,
                    p,
                    pretty,
                ),
                Value::Array(a) => array_out(o, a@, p, pretty, a@.len() as int),
                _ => o,
            }
        }
    }
}

/// What writing the first `m` tables of an array of tables at `path` makes
/// of the output `out`: a `[[header]]` and the table's contents for each.
pub open spec fn array_out(
    out: Seq<char>,
    a: Seq<Value>,
    path: Seq<Seq<char>>,
    pretty: bool,
    m: int,
) -> Seq<char>
    decreases a, 0int, m,
{
    if m <= 0 || m > a.len() {
        out
    } else {
        let o = array_out(out, a, path, pretty, m - 1);
        let o1 = o + header_text(o, path, true);
        match a[m - 1] {
            Value::Table(c) => doc_out(o1, c, path, pretty),
            _ => o1,
        }
    }
}

/// Serializes a table as a TOML document.
///
/// Keys are written in the order the table holds them, which for a parsed
/// document is the order they appeared in the source. Sub-tables become
/// `[header]` sections and arrays of tables become `[[header]]` sections, so
/// the output is idiomatic rather than one long line of inline tables. Every
/// plain key comes before the first header, or it would land in that
/// section instead.
pub fn to_string(table: &Table) -> (s: String)
    ensures
        s@ == doc_out(Seq::empty(), *table, Seq::empty(), false),
{
    let mut out = String::new();
    let mut path: Vec<String> = Vec::new();
    assert(texts(path@) =~= Seq::<Seq<char>>::empty());
    write_table(&mut out, table, &mut path, false);
    out
}

/// Serializes a table as a TOML document laid out for a reader: the same
/// document as [`to_string`], with arrays one item per line and strings that
/// hold newlines as multi-line strings.
pub fn to_string_pretty(table: &Table) -> (s: String)
    ensures
        s@ == doc_out(Seq::empty(), *table, Seq::empty(), true),
{
    let mut out = String::new();
    let mut path: Vec<String> = Vec::new();
    assert(texts(path@) =~= Seq::<Seq<char>>::empty());
    write_table(&mut out, table, &mut path, true);
    out
}

/// Whether a value is written as a section of its own.
fn writes_as_section(v: &Value) -> (b: bool)
    ensures
        b == is_section(*v),
{
    match v {
        Value::Table(_) => true,
        Value::Array(items) => {
            if items.len() == 0 {
                return false;
            }
            let mut i: usize = 0;
            while i < items.len()
                invariant
                    i <= items@.len(),
                    *v == Value::Array(*items),
                    forall|j: int| 0 <= j < i ==> #[trigger] items@[j] is Table,
                decreases items@.len() - i,
            {
                if !items[i].is_table() {
                    assert(!(items@[i as int] is Table));
                    return false;
                }
                i += 1;
            }
            true
        },
        _ => false,
    }
}

/// Whether a table's own header can be left out.
fn implied_header(t: &Table) -> (b: bool)
    ensures
        b == header_implied(*t),
{
    if t.len() == 0 {
        return false;
    }
    let mut i: usize = 0;
    while i < t.len()
        invariant
            i <= t@.len(),
            forall|j: int| 0 <= j < i ==> #[trigger] is_section(t@[j].1),
        decreases t@.len() - i,
    {
        let (_, v) = t.entry_at(i);
        if !writes_as_section(v) {
            return false;
        }
        i += 1;
    }
    true
}

/// The key texts of a header path.
pub open spec fn texts(p: Seq<String>) -> Seq<Seq<char>> {
    p.map_values(|k: String| k@)
}

/// Appends a `[header]` or `[[header]]` line.
fn write_header(out: &mut String, path: &Vec<String>, array: bool)
    ensures
        final(out)@ == old(out)@ + header_text(old(out)@, texts(path@), array),
{
    let ghost o = out@;
    let started = !out.as_str().is_empty();
    if started {
        push_char(out, '\n');
    }
    push_char(out, '[');
    if array {
        push_char(out, '[');
    }
    let ghost o2 = out@;
    let mut i: usize = 0;
    while i < path.len()
        invariant
            i <= path@.len(),
            out@ == o2 + join(texts(path@).take(i as int), seq!['.']),
        decreases path@.len() - i,
    {
        if i > 0 {
            push_char(out, '.');
        }
        push_str(out, path[i].as_str());
        proof {
            let t = texts(path@);
            assert(t.take(i + 1).drop_last() =~= t.take(i as int));
            assert(t.take(i + 1).last() == path@[i as int]@);
            if i == 0 {
                assert(t.take(1) =~= seq![path@[0]@]);
            }
        }
        i += 1;
    }
    assert(texts(path@).take(path@.len() as int) =~= texts(path@));
    push_char(out, ']');
    if array {
        push_char(out, ']');
    }
    push_char(out, '\n');
    assert(out@ =~= o + header_text(o, texts(path@), array));
}

/// Appends `value` laid out for a reader at nesting `level`.
fn write_pretty(out: &mut String, value: &Value, ind: &String, Ghost(level): Ghost<nat>)
    requires
        ind@ == indent(level),
    ensures
        final(out)@ == old(out)@ + pretty_text(*value, level),
    decreases *value,
{
    match value {
        Value::String(s) => {
            let cs = str_chars(s.as_str());
            let mut has_newline = false;
            let mut i: usize = 0;
            while i < cs.len()
                invariant
                    i <= cs.len(),
                    cs@ == s@,
                    has_newline == exists|j: int| 0 <= j < i && cs@[j] == '\n',
                decreases cs.len() - i,
            {
                if cs[i] == '\n' {
                    has_newline = true;
                }
                i += 1;
            }
            if has_newline {
                let ghost o = out@;
                push_char(out, '"');
                push_char(out, '"');
                push_char(out, '"');
                push_char(out, '\n');
                let ghost start = out@;
                let mut k: usize = 0;
                while k < cs.len()
                    invariant
                        k <= cs.len(),
                        cs@ == s@,
                        out@ == start + escaped_multiline(cs@.take(k as int)),
                    decreases cs.len() - k,
                {
                    if cs[k] == '\n' {
                        push_char(out, '\n');
                    } else {
                        push_escaped_char(out, cs[k]);
                    }
                    assert(cs@.take(k + 1).drop_last() =~= cs@.take(k as int));
                    k += 1;
                }
                assert(cs@.take(cs.len() as int) =~= cs@);
                push_char(out, '"');
                push_char(out, '"');
                push_char(out, '"');
                assert(out@ =~= o + pretty_text(*value, level));
            } else {
                write_string(out, s.as_str());
            }
        },
        Value::Array(items) => {
            if items.len() == 0 {
                push_char(out, '[');
                push_char(out, ']');
                assert(out@ =~= old(out)@ + pretty_text(*value, level));
                return;
            }
            let ghost o = out@;
            push_char(out, '[');
            push_char(out, '\n');
            let mut deeper = ind.clone();
            push_str(&mut deeper, "    ");
            proof {
                reveal_strlit("    ");
                assert(deeper@ =~= indent(level + 1));
            }
            let mut i: usize = 0;
            while i < items.len()
                invariant
                    i <= items@.len(),
                    ind@ == indent(level),
                    deeper@ == indent(level + 1),
                    *value == Value::Array(*items),
                    out@ == o + seq!['[', '\n'] + pretty_items(items@, i as int, level),
                decreases items@.len() - i,
            {
                push_str(out, deeper.as_str());
                proof {
                    assert(decreases_to!(*value => value->Array_0));
                }
                write_pretty(out, &items[i], &deeper, Ghost(level + 1));
                push_char(out, ',');
                push_char(out, '\n');
                i += 1;
                assert(out@ =~= o + seq!['[', '\n'] + pretty_items(items@, i as int, level));
            }
            push_str(out, ind.as_str());
            push_char(out, ']');
            assert(out@ =~= o + pretty_text(*value, level));
        },
        _ => write_value(out, value),
    }
}

/// Appends the document form of table `t`, found at `path`.
#[verifier::spinoff_prover]
#[verifier::rlimit(40)]
fn write_table(out: &mut String, t: &Table, path: &mut Vec<String>, pretty: bool)
    ensures
        final(out)@ == doc_out(old(out)@, *t, texts(old(path)@), pretty),
        final(path)@ == old(path)@,
    decreases *t, 1int,
{
    let ghost o = out@;
    let mut i: usize = 0;
    while i < t.len()
        invariant
            i <= t@.len(),
            path@ == old(path)@,
            out@ == o + plain_lines(*t, i as int, pretty),
        decreases t@.len() - i,
    {
        let (key, v) = t.entry_at(i);
        if !writes_as_section(v) {
            let k = key_to_string(key);
            push_str(out, k.as_str());
            push_char(out, ' ');
            push_char(out, '=');
            push_char(out, ' ');
            if pretty {
                let top = String::new();
                assert(top@ =~= indent(0));
                write_pretty(out, v, &top, Ghost(0));
            } else {
                write_value(out, v);
            }
            push_char(out, '\n');
        }
        i += 1;
        assert(out@ =~= o + plain_lines(*t, i as int, pretty));
    }
    write_sections(out, t, path, pretty);
}

/// Appends the sections of table `t`, found at `path`.
fn write_sections(out: &mut String, t: &Table, path: &mut Vec<String>, pretty: bool)
    ensures
        final(out)@ == sections_out(old(out)@, *t, texts(old(path)@), pretty, t@.len() as int),
        final(path)@ == old(path)@,
    decreases *t, 0int,
{
    let ghost o = out@;
    let ghost p0 = texts(path@);
    let mut i: usize = 0;
    while i < t.len()
        invariant
            i <= t@.len(),
            path@ == old(path)@,
            p0 == texts(old(path)@),
            out@ == sections_out(o, *t, p0, pretty, i as int),
        decreases t@.len() - i,
    {
        let (key, v) = t.entry_at(i);
        if writes_as_section(v) {
            let k = key_to_string(key);
            path.push(k);
            let ghost p = texts(path@);
            assert(p =~= p0.push(key_text(t@[i as int].0)));
            proof {
                lemma_entry_decreases(*t, i as int);
            }
            match v {
                Value::Table(child) => {
                    if !implied_header(child) {
                        write_header(out, path, false);
                    }
                    write_table(out, child, path, pretty);
                },
                Value::Array(items) => {
                    write_array_of_tables(out, items, path, pretty);
                },
                _ => {},
            }
            path.pop();
            assert(path@ =~= old(path)@);
        }
        i += 1;
    }
}

/// Appends a `[[header]]` and the contents of each table of an array of
/// tables at `path`.
fn write_array_of_tables(out: &mut String, items: &Vec<Value>, path: &mut Vec<String>, pretty: bool)
    ensures
        final(out)@ == array_out(old(out)@, items@, texts(old(path)@), pretty, items@.len() as int),
        final(path)@ == old(path)@,
    decreases items@, 0int,
{
    let ghost o = out@;
    let ghost p0 = texts(path@);
    let mut i: usize = 0;
    while i < items.len()
        invariant
            i <= items@.len(),
            path@ == old(path)@,
            p0 == texts(old(path)@),
            out@ == array_out(o, items@, p0, pretty, i as int),
        decreases items@.len() - i,
    {
        write_header(out, path, true);
        match &items[i] {
            Value::Table(child) => {
                write_table(out, child, path, pretty);
            },
            _ => {},
        }
        i += 1;
    }
}

} // verus!

verus! {

/// Escaping a string character by character, from the front.
pub proof fn lemma_escaped_front(c: char, s: Seq<char>)
    ensures
        escaped(seq![c] + s) == escape_char(c) + escaped(s),
    decreases s.len(),
{
    if s.len() == 0 {
        assert(seq![c] + s =~= seq![c]);
        assert(seq![c].drop_last() =~= Seq::<char>::empty());
        assert(escaped(Seq::<char>::empty()) == Seq::<char>::empty());
        assert(escaped(seq![c]) == escaped(seq![c].drop_last()) + escape_char(c));
        assert(Seq::<char>::empty() + escape_char(c) =~= escape_char(c));
        assert(escape_char(c) + Seq::<char>::empty() =~= escape_char(c));
    } else {
        lemma_escaped_front(c, s.drop_last());
        assert((seq![c] + s).drop_last() =~= seq![c] + s.drop_last());
        assert((seq![c] + s).last() == s.last());
        assert(escape_char(c) + escaped(s.drop_last()) + escape_char(s.last()) =~= escape_char(c)
            + (escaped(s.drop_last()) + escape_char(s.last())));
    }
}

/// The value of an uppercase hexadecimal digit is the number it was written
/// for.
proof fn lemma_hex_upper(d: int)
    requires
        0 <= d < 16,
    ensures
        is_radix_digit(hex_upper(d), 16),
        radix_digit_val(hex_upper(d)) == d,
{
}

/// The escape `\u00XY` the writer uses for a control character reads back as
/// that character.
proof fn lemma_unicode_escape(t: Seq<char>, j: int, c: char)
    requires
        0 <= j,
        j + 6 <= t.len(),
        t[j] == 'u',
        t[j + 1] == '0',
        t[j + 2] == '0',
        t[j + 3] == hex_upper((c as int) / 16),
        t[j + 4] == hex_upper((c as int) % 16),
        (c as int) < 0x80,
    ensures
        escape_at(t, j) == Some((c, j + 5)),
{
    let code = c as int;
    lemma_hex_upper(code / 16);
    lemma_hex_upper(code % 16);
    assert('0' <= '0' && '0' <= '9');
    assert(all_hex(t, j + 1, j + 5));
    let h1 = hex_upper(code / 16);
    let h2 = hex_upper(code % 16);
    let digits = t.subrange(j + 1, j + 5);
    assert(digits =~= seq!['0', '0', h1, h2]);
    assert(seq!['0', '0', h1, h2].drop_last() =~= seq!['0', '0', h1]);
    assert(seq!['0', '0', h1].drop_last() =~= seq!['0', '0']);
    assert(seq!['0', '0'].drop_last() =~= seq!['0']);
    assert(seq!['0'].drop_last() =~= Seq::<char>::empty());
    assert(seq!['0'].last() == '0');
    assert(radix_digit_val('0') == 0);
    assert(radix_value(Seq::<char>::empty(), 16) == 0);
    assert(radix_value(seq!['0'], 16) == radix_value(seq!['0'].drop_last(), 16) * 16 + radix_digit_val('0'));
    assert(radix_value(seq!['0'], 16) == 0);
    assert(radix_value(seq!['0', '0'], 16) == 0);
    assert(radix_value(seq!['0', '0', h1], 16) == code / 16);
    assert(radix_value(seq!['0', '0', h1, h2], 16) == code);
    vstd::utf8::char_u32_cast(c, c as u32);
}

/// What the writer writes for a string, the reader reads back: reading a
/// basic string from just after the opening quote of `string_literal(s)`
/// gives `s` and stops after the closing quote, whatever follows.
pub proof fn law_string_reads_back(s: Seq<char>, rest: Seq<char>)
    ensures
        basic_string(string_literal(s) + rest, 1) == Some((s, string_literal(s).len() as int)),
{
    let t = string_literal(s) + rest;
    assert(t =~= seq!['"'] + escaped(s) + (seq!['"'] + rest));
    lemma_reads_back(seq!['"'], s, seq!['"'] + rest);
}

/// The induction behind [`law_string_reads_back`]: after any prefix `p`, the
/// escaped text of `s` and a closing quote read back as `s`.
pub(crate) proof fn lemma_reads_back(p: Seq<char>, s: Seq<char>, w: Seq<char>)
    requires
        w.len() > 0,
        w[0] == '"',
    ensures
        basic_string(p + escaped(s) + w, p.len() as int) == Some((s, (p.len() + escaped(s).len() + 1) as int)),
    decreases s.len(),
{
    let t = p + escaped(s) + w;
    let i = p.len() as int;
    if s.len() == 0 {
        assert(escaped(s) =~= Seq::<char>::empty());
        assert(t[i] == '"');
        assert(s =~= Seq::<char>::empty());
    } else {
        let c = s[0];
        let s2 = s.drop_first();
        assert(s =~= seq![c] + s2);
        lemma_escaped_front(c, s2);
        let e = escape_char(c);
        let p2 = p + e;
        assert(t =~= p2 + escaped(s2) + w);
        lemma_reads_back(p2, s2, w);
        let r = basic_string(t, p2.len() as int);
        assert(r == Some((s2, (p2.len() + escaped(s2).len() + 1) as int)));
        assert(escaped(s).len() == e.len() + escaped(s2).len());
        if c == '"' || c == '\\' || c == '\u{8}' || c == '\t' || c == '\n' || c == '\u{c}' || c == '\r' {
            assert(t[i] == '\\');
            assert(t[i + 1] == e[1]);
            assert(escape_at(t, i + 1) == Some((c, i + 2)));
            assert(seq![c] + s2 =~= s);
        } else if c < ' ' || c == '\u{7f}' {
            assert(t[i] == '\\');
            assert(t[i + 1] == 'u');
            assert(t[i + 2] == '0');
            assert(t[i + 3] == '0');
            assert(t[i + 4] == hex_upper((c as int) / 16));
            assert(t[i + 5] == hex_upper((c as int) % 16));
            lemma_unicode_escape(t, i + 1, c);
            assert(seq![c] + s2 =~= s);
        } else {
            assert(e =~= seq![c]);
            assert(t[i] == c);
            assert(!is_control(c));
            assert(seq![c] + s2 =~= s);
        }
    }
}

/// Writing a character inside a multi-line string, then the rest.
proof fn lemma_escaped_multiline_front(c: char, s: Seq<char>)
    ensures
        escaped_multiline(seq![c] + s) == escape_char_multiline(c) + escaped_multiline(s),
    decreases s.len(),
{
    if s.len() == 0 {
        assert(seq![c] + s =~= seq![c]);
        assert(seq![c].drop_last() =~= Seq::<char>::empty());
        assert(escaped_multiline(seq![c]) == escaped_multiline(seq![c].drop_last()) + escape_char_multiline(c));
        assert(Seq::<char>::empty() + escape_char_multiline(c) =~= escape_char_multiline(c));
        assert(escape_char_multiline(c) + Seq::<char>::empty() =~= escape_char_multiline(c));
    } else {
        lemma_escaped_multiline_front(c, s.drop_last());
        assert((seq![c] + s).drop_last() =~= seq![c] + s.drop_last());
        assert((seq![c] + s).last() == s.last());
        assert(escape_char_multiline(c) + escaped_multiline(s.drop_last()) + escape_char_multiline(s.last())
            =~= escape_char_multiline(c) + (escaped_multiline(s.drop_last()) + escape_char_multiline(s.last())));
    }
}

/// The closing delimiter of a multi-line basic string, not followed by
/// another quote, ends it with nothing more read.
proof fn lemma_ml_close(t: Seq<char>, i: int)
    requires
        0 <= i,
        i + 3 <= t.len(),
        t[i] == '"',
        t[i + 1] == '"',
        t[i + 2] == '"',
        i + 3 == t.len() || t[i + 3] != '"',
    ensures
        multiline_body(t, i, false) == Some((Seq::<char>::empty(), i + 3)),
{
    assert(quote_run(t, i + 3, '"') == 0);
    assert(quote_run(t, i + 2, '"') == 1);
    assert(quote_run(t, i + 1, '"') == 2);
    assert(quote_run(t, i, '"') == 3);
    assert(Seq::new(0, |_k: int| '"') =~= Seq::<char>::empty());
}

/// The induction behind [`law_multiline_reads_back`]: after any prefix `p`,
/// the text of `s` as written in a multi-line string, then the closing
/// delimiter, read back as `s`.
proof fn lemma_ml_reads_back(p: Seq<char>, s: Seq<char>, w: Seq<char>)
    requires
        w.len() >= 3,
        w[0] == '"',
        w[1] == '"',
        w[2] == '"',
        w.len() == 3 || w[3] != '"',
    ensures
        multiline_body(p + escaped_multiline(s) + w, p.len() as int, false) == Some(
            (s, (p.len() + escaped_multiline(s).len() + 3) as int),
        ),
    decreases s.len(),
{
    let t = p + escaped_multiline(s) + w;
    let i = p.len() as int;
    if s.len() == 0 {
        assert(escaped_multiline(s) =~= Seq::<char>::empty());
        assert(t =~= p + w);
        lemma_ml_close(t, i);
        assert(s =~= Seq::<char>::empty());
    } else {
        let c = s[0];
        let s2 = s.drop_first();
        assert(s =~= seq![c] + s2);
        lemma_escaped_multiline_front(c, s2);
        let e = escape_char_multiline(c);
        let p2 = p + e;
        assert(t =~= p2 + escaped_multiline(s2) + w);
        lemma_ml_reads_back(p2, s2, w);
        assert(escaped_multiline(s).len() == e.len() + escaped_multiline(s2).len());
        if c == '\n' {
            assert(t[i] == '\n');
            assert(seq!['\n'] + s2 =~= s);
        } else if c == '"' || c == '\\' || c == '\u{8}' || c == '\t' || c == '\u{c}' || c == '\r' {
            assert(t[i] == '\\');
            assert(t[i + 1] == e[1]);
            assert(spaces_end(t, i + 1) == i + 1);
            assert(newline_len(t, i + 1) == 0);
            assert(!line_ending_backslash(t, i));
            assert(escape_at(t, i + 1) == Some((c, i + 2)));
            assert(seq![c] + s2 =~= s);
        } else if c < ' ' || c == '\u{7f}' {
            assert(t[i] == '\\');
            assert(t[i + 1] == 'u');
            assert(spaces_end(t, i + 1) == i + 1);
            assert(newline_len(t, i + 1) == 0);
            assert(!line_ending_backslash(t, i));
            assert(t[i + 2] == '0');
            assert(t[i + 3] == '0');
            assert(t[i + 4] == hex_upper((c as int) / 16));
            assert(t[i + 5] == hex_upper((c as int) % 16));
            lemma_unicode_escape(t, i + 1, c);
            assert(seq![c] + s2 =~= s);
        } else {
            assert(e =~= seq![c]);
            assert(t[i] == c);
            assert(!is_control(c));
            assert(newline_len(t, i) != 2);
            assert(seq![c] + s2 =~= s);
        }
    }
}

/// What the writer writes for a string in a multi-line string, the reader
/// reads back: reading a multi-line basic string at the start of
/// `multiline_literal(s)` gives exactly `s`, carriage returns, newlines and
/// all, and stops after the closing delimiter, whatever follows that is not
/// another quote.
pub proof fn law_multiline_reads_back(s: Seq<char>, rest: Seq<char>)
    requires
        rest.len() == 0 || rest[0] != '"',
    ensures
        multiline_string(multiline_literal(s) + rest, 0, false) == Some((s, multiline_literal(s).len() as int)),
{
    let t = multiline_literal(s) + rest;
    let w = seq!['"', '"', '"'] + rest;
    assert(t =~= seq!['"', '"', '"', '\n'] + escaped_multiline(s) + w);
    assert(t[3] == '\n');
    assert(!stray_cr(t, 3));
    assert(newline_len(t, 3) == 1);
    lemma_ml_reads_back(seq!['"', '"', '"', '\n'], s, w);
}

/// Where a run of bare-key characters ends.
proof fn lemma_bare_key_end(t: Seq<char>, i: int, n: int)
    requires
        0 <= i <= n <= t.len(),
        forall|k: int| i <= k < n ==> #[trigger] is_bare_key_char(t[k]),
        n == t.len() || !is_bare_key_char(t[n]),
    ensures
        bare_key_end(t, i) == n,
    decreases n - i,
{
    if i < n {
        lemma_bare_key_end(t, i + 1, n);
    }
}

/// What the writer writes for a key, the reader reads back as that key,
/// whenever what follows cannot be taken for more of a bare key.
pub proof fn law_key_reads_back(k: Seq<char>, rest: Seq<char>)
    requires
        rest.len() == 0 || !is_bare_key_char(rest[0]),
    ensures
        simple_key(key_text(k) + rest, 0) == Some((k, key_text(k).len() as int)),
{
    let t = key_text(k) + rest;
    if is_bare_key(k) {
        assert forall|j: int| 0 <= j < k.len() implies #[trigger] is_bare_key_char(t[j]) by {
            assert(t[j] == k[j]);
        }
        lemma_bare_key_end(t, 0, k.len() as int);
        assert(t.subrange(0, k.len() as int) =~= k);
    } else {
        law_string_reads_back(k, rest);
    }
}

} // verus!
