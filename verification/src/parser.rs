//! The TOML parser.
//!
//! A single pass over the source characters builds the document directly;
//! there is no separate token stream.

use vstd::prelude::*;

use crate::datetime;
use crate::datetime::{
    spec_scan, valid_datetime, datetime_text, law_datetime_reads_back, Datetime, looks_like_time,
    ScanError,
};
use crate::error::{Error, join};
use crate::grammar::{
    comment_end, escape_at, is_control, line_end, line_ending_backslash, multiline_body,
    multiline_string, newline_len, prefixed, quote_run, quoted_string, skip_folded, spaces_end,
    stray_cr, trivia_end, all_hex, is_scalar_value, simple_escape, basic_string, simple_key,
    dotted_key, key_tail, bare_key_end, is_bare_key_char, value_end_ok, token_end, starts_with_at,
    bool_value, string_value, is_value_end,
};
use crate::map::{
    Table, has_key, distinct_keys, lemma_lookup_at, inserted, key_index, lookup, lemma_entry_decreases, lemma_key_index,
    lemma_lookup_inserted, lemma_lookup_updated, value_eq,
};
use crate::ser::{
    key_to_string, key_text, inline_text, string_literal, escaped, escape_char, law_string_reads_back,
    lemma_escaped_front, bool_text,
};
use crate::span::{Span, Spans, recorded};
use std::ops::Range;
use crate::number::{
    law_integer_reads_back, Number,
    is_radix_digit, radix_digit, radix_digit_val, radix_value, parse_number_token, spec_number, denotes,
    copy_range,
};
use crate::text::{
    push_char, push_str, char_from_code, string_from_chars, str_chars, push_decimal, is_digit, pow10,
    pad_dec, lemma_pad_dec, dec_digits, lemma_dec_digits_are_digits, all_digits, int_text,
};
use crate::value::{Tree, Value, tree_of, trees_of, entries_view, lemma_table_tree, lemma_trees_of};
use crate::model::{
    walk, walk_created, doc_tree, path_set, lemma_walk_missing, lemma_walk_table, lemma_walk_array, lemma_walk_refused,
    tree_get, tree_apply, lemma_tree_path, lemma_tree_apply, lemma_empty_table_tree, lemma_create_table_tree,
    lemma_create_array_tree, lemma_push_table_tree, lemma_path_set_insert, lemma_array_tree, built_of, header_step,
    unfrozen, lemma_walk_first, lemma_unfrozen_prefix,
    Built, Stmt, stmt_at, pair_step, lemma_full_path_one, lemma_pair_step, built_start, doc_stmts, doc_start,
    stmts_fit, run, lemma_doc_step, lemma_doc_end, rests, lemma_rests_start, lemma_rests_trivia, step,
    redefines, header_redefines, run_redefines, refuses, lemma_refuses_start, lemma_refuses_trivia, lemma_refuses_step,
};

verus! {

/// How deeply arrays and inline tables may nest. Parsing is recursive, so
/// without a cap a document such as `a = [[[[…` would exhaust the stack.
pub const MAX_DEPTH: usize = 128;

/// The number of line feeds in `s[0..p]`.
pub open spec fn newlines_before(s: Seq<char>, p: int) -> nat
    decreases p,
{
    if p <= 0 {
        0
    } else if s[p - 1] == '\n' {
        newlines_before(s, p - 1) + 1
    } else {
        newlines_before(s, p - 1)
    }
}

/// Where the line holding position `p` starts.
pub open spec fn line_start_of(s: Seq<char>, p: int) -> int
    decreases p,
{
    if p <= 0 {
        0
    } else if s[p - 1] == '\n' {
        p
    } else {
        line_start_of(s, p - 1)
    }
}

/// How many bytes the UTF-8 encoding of `c` takes.
pub open spec fn utf8_width(c: char) -> nat {
    if (c as u32) < 0x80 {
        1
    } else if (c as u32) < 0x800 {
        2
    } else if (c as u32) < 0x10000 {
        3
    } else {
        4
    }
}

/// The byte offset of character position `p`.
pub open spec fn byte_offset(s: Seq<char>, p: int) -> nat
    decreases p,
{
    if p <= 0 {
        0
    } else {
        byte_offset(s, p - 1) + utf8_width(s[p - 1])
    }
}

/// Whether an error, if that is what `r` is, points at a line of the
/// document.
pub open spec fn has_line<T>(r: Result<T, Error>) -> bool {
    r matches Err(e) ==> e@.line >= 1 && e@.column >= 1 && e@.path.len() == 0
}

/// A parser over one document.
pub(crate) struct Parser {
    pub(crate) cs: Vec<char>,
    pub(crate) pos: usize,
    pub(crate) depth: usize,
}

impl Parser {
    /// The parser's position is inside the document and its nesting within
    /// the limit.
    pub(crate) open spec fn wf(&self) -> bool {
        self.pos <= self.cs.len() && self.cs.len() < usize::MAX && self.depth <= MAX_DEPTH
    }

    /// The document text and nesting are as before; only the position moved.
    pub(crate) open spec fn moved_from(&self, old: &Parser) -> bool {
        self.cs == old.cs && self.depth == old.depth && self.wf()
    }

    /// Builds a parser over `cs`.
    pub(crate) fn new(cs: Vec<char>) -> (p: Parser)
        requires
            cs.len() < usize::MAX,
        ensures
            p.cs == cs,
            p.pos == 0,
            p.depth == 0,
            p.wf(),
    {
        Parser { cs, pos: 0, depth: 0 }
    }

    /// The character at the cursor.
    pub(crate) fn peek(&self) -> (c: Option<char>)
        ensures
            c == if self.pos < self.cs@.len() {
                Some(self.cs@[self.pos as int])
            } else {
                None::<char>
            },
    {
        if self.pos < self.cs.len() {
            Some(self.cs[self.pos])
        } else {
            None
        }
    }

    /// The character `offset` places past the cursor.
    pub(crate) fn peek_at(&self, offset: usize) -> (c: Option<char>)
        ensures
            c == if self.pos + offset < self.cs@.len() {
                Some(self.cs@[self.pos + offset])
            } else {
                None::<char>
            },
    {
        if offset < self.cs.len() && self.pos < self.cs.len() - offset {
            Some(self.cs[self.pos + offset])
        } else {
            None
        }
    }

    /// The 1-based line and character column of position `p`.
    pub(crate) fn position(&self, p: usize) -> (lc: (usize, usize))
        requires
            p <= self.cs.len() < usize::MAX,
        ensures
            lc.0 == newlines_before(self.cs@, p as int) + 1,
            lc.1 == p - line_start_of(self.cs@, p as int) + 1,
            lc.1 >= 1,
    {
        let mut line: usize = 1;
        let mut start: usize = 0;
        let mut i: usize = 0;
        while i < p
            invariant
                i <= p <= self.cs.len() < usize::MAX,
                line == newlines_before(self.cs@, i as int) + 1,
                start == line_start_of(self.cs@, i as int),
                start <= i,
                line <= i + 1,
            decreases p - i,
        {
            let c = self.cs[i];
            i += 1;
            if c == '\n' {
                line += 1;
                start = i;
            }
        }
        (line, p - start + 1)
    }

    /// The byte offset of position `p`, or `usize::MAX` if it would not fit.
    pub(crate) fn byte_offset(&self, p: usize) -> (o: usize)
        requires
            p <= self.cs.len(),
        ensures
            byte_offset(self.cs@, p as int) <= usize::MAX ==> o == byte_offset(self.cs@, p as int),
            byte_offset(self.cs@, p as int) > usize::MAX ==> o == usize::MAX,
    {
        let mut o: usize = 0;
        let mut i: usize = 0;
        while i < p
            invariant
                i <= p <= self.cs.len(),
                o == byte_offset(self.cs@, i as int) || (o == usize::MAX && byte_offset(self.cs@, i as int) > usize::MAX),
            decreases p - i,
        {
            let c = self.cs[i];
            let w: usize = if (c as u32) < 0x80 {
                1
            } else if (c as u32) < 0x800 {
                2
            } else if (c as u32) < 0x10000 {
                3
            } else {
                4
            };
            if o == usize::MAX || o > usize::MAX - w {
                o = usize::MAX;
            } else {
                o = o + w;
            }
            i += 1;
            proof {
                assert(byte_offset(self.cs@, i as int) == byte_offset(self.cs@, i - 1) + utf8_width(self.cs@[i - 1]));
            }
        }
        o
    }

    /// An error at position `p`.
    pub(crate) fn error_at(&self, p: usize, message: String) -> (e: Error)
        requires
            p <= self.cs.len() < usize::MAX,
        ensures
            e@.message == message@,
            e@.line == newlines_before(self.cs@, p as int) + 1,
            e@.column == p - line_start_of(self.cs@, p as int) + 1,
            e@.line >= 1,
            e@.column >= 1,
            e@.path.len() == 0,
    {
        let (line, column) = self.position(p);
        let offset = self.byte_offset(p);
        Error::parse(message, line, column, offset)
    }

    /// An error at the cursor.
    pub(crate) fn error_here(&self, message: &str) -> (e: Error)
        requires
            self.wf(),
        ensures
            e@.message == message@,
            e@.line >= 1,
            e@.column >= 1,
            e@.path.len() == 0,
    {
        self.error_at(self.pos, message.to_owned())
    }

    // ----- whitespace, comments, line structure ---------------------------

    /// Skips spaces and tabs.
    pub(crate) fn skip_spaces(&mut self)
        requires
            old(self).wf(),
        ensures
            final(self).moved_from(&*old(self)),
            final(self).pos == spaces_end(old(self).cs@, old(self).pos as int),
            final(self).pos >= old(self).pos,
    {
        while self.pos < self.cs.len() && (self.cs[self.pos] == ' ' || self.cs[self.pos] == '\t')
            invariant
                self.moved_from(&*old(self)),
                self.pos >= old(self).pos,
                spaces_end(self.cs@, self.pos as int) == spaces_end(old(self).cs@, old(self).pos as int),
            decreases self.cs.len() - self.pos,
        {
            self.pos += 1;
        }
    }

    /// Consumes a newline, if there is one, reporting a stray carriage return.
    pub(crate) fn consume_newline(&mut self) -> (r: Result<bool, Error>)
        requires
            old(self).wf(),
        ensures
            has_line(r),
            final(self).moved_from(&*old(self)),
            final(self).pos >= old(self).pos,
            r is Ok ==> final(self).pos == old(self).pos + newline_len(old(self).cs@, old(self).pos as int)
                && !stray_cr(old(self).cs@, old(self).pos as int)
                && (r->Ok_0 <==> newline_len(old(self).cs@, old(self).pos as int) > 0),
            r is Err ==> stray_cr(old(self).cs@, old(self).pos as int) && r->Err_0@.line >= 1,
    {
        match self.peek() {
            Some(c) => {
                if c == '\n' {
                    self.pos += 1;
                    Ok(true)
                } else if c == '\r' {
                    if self.peek_at(1) == Some('\n') {
                        self.pos += 2;
                        Ok(true)
                    } else {
                        Err(self.error_here("a carriage return must be followed by a line feed"))
                    }
                } else {
                    Ok(false)
                }
            },
            None => Ok(false),
        }
    }

    /// Skips a comment; the cursor is on its `#`.
    pub(crate) fn skip_comment(&mut self) -> (r: Result<(), Error>)
        requires
            old(self).wf(),
            old(self).pos < old(self).cs.len(),
        ensures
            has_line(r),
            final(self).moved_from(&*old(self)),
            final(self).pos > old(self).pos,
            r is Ok ==> comment_end(old(self).cs@, old(self).pos + 1) == Some(final(self).pos as int),
            r is Err ==> comment_end(old(self).cs@, old(self).pos + 1) is None && r->Err_0@.line >= 1,
    {
        self.pos += 1;
        loop
            invariant
                self.moved_from(&*old(self)),
                self.pos > old(self).pos,
                comment_end(self.cs@, self.pos as int) == comment_end(self.cs@, old(self).pos + 1),
            decreases self.cs.len() - self.pos,
        {
            if self.pos >= self.cs.len() {
                return Ok(());
            }
            let c = self.cs[self.pos];
            if c == '\n' || (c == '\r' && self.peek_at(1) == Some('\n')) {
                return Ok(());
            }
            if (c < ' ' && c != '\t') || c == '\u{7f}' {
                return Err(self.error_here("invalid control character in comment"));
            }
            self.pos += 1;
        }
    }

    /// Skips whitespace, newlines and comments.
    pub(crate) fn skip_trivia(&mut self) -> (r: Result<(), Error>)
        requires
            old(self).wf(),
        ensures
            has_line(r),
            final(self).moved_from(&*old(self)),
            final(self).pos >= old(self).pos,
            r is Ok ==> trivia_end(old(self).cs@, old(self).pos as int) == Some(final(self).pos as int),
            r is Err ==> trivia_end(old(self).cs@, old(self).pos as int) is None && r->Err_0@.line >= 1,
    {
        loop
            invariant
                self.moved_from(&*old(self)),
                self.pos >= old(self).pos,
                trivia_end(self.cs@, self.pos as int) == trivia_end(self.cs@, old(self).pos as int),
            decreases self.cs.len() - self.pos,
        {
            match self.peek() {
                Some(c) => {
                    if c == ' ' || c == '\t' {
                        self.pos += 1;
                        assert(trivia_end(self.cs@, self.pos - 1) == trivia_end(self.cs@, self.pos as int));
                    } else if c == '#' {
                        let before = self.pos;
                        self.skip_comment()?;
                        proof {
                            lemma_comment_end_after(self.cs@, before + 1);
                        }
                        assert(trivia_end(self.cs@, before as int) == trivia_end(self.cs@, self.pos as int));
                    } else if c == '\n' || c == '\r' {
                        let ghost before = self.pos;
                        match self.consume_newline() {
                            Ok(_) => {},
                            Err(e) => return Err(e),
                        }
                        assert(trivia_end(self.cs@, before as int) == trivia_end(self.cs@, self.pos as int));
                    } else {
                        return Ok(());
                    }
                },
                None => return Ok(()),
            }
        }
    }

    /// After a header or a key/value pair, only a comment may follow before the
    /// end of the line.
    pub(crate) fn finish_line(&mut self) -> (r: Result<(), Error>)
        requires
            old(self).wf(),
        ensures
            has_line(r),
            final(self).moved_from(&*old(self)),
            final(self).pos >= old(self).pos,
            r is Ok ==> line_end(old(self).cs@, old(self).pos as int) == Some(final(self).pos as int),
            r is Err ==> line_end(old(self).cs@, old(self).pos as int) is None && r->Err_0@.line >= 1,
    {
        self.skip_spaces();
        if self.peek() == Some('#') {
            self.skip_comment()?;
        }
        if self.pos >= self.cs.len() {
            return Ok(());
        }
        match self.consume_newline() {
            Ok(true) => Ok(()),
            Ok(false) => Err(self.error_here("expected a newline after the value")),
            Err(e) => Err(e),
        }
    }
}

impl Parser {
    // ----- strings --------------------------------------------------------

    /// Parses the body of an escape sequence; the backslash is already
    /// consumed, and the escaped character is appended to `out`.
    pub(crate) fn parse_escape(&mut self, out: &mut String) -> (r: Result<(), Error>)
        requires
            old(self).wf(),
        ensures
            has_line(r),
            final(self).moved_from(&*old(self)),
            r is Ok ==> (escape_at(old(self).cs@, old(self).pos as int) matches Some((c, e))
                && final(self).pos == e && final(out)@ == old(out)@.push(c)),
            r is Err ==> escape_at(old(self).cs@, old(self).pos as int) is None,
    {
        let start = self.pos;
        let c = match self.peek() {
            Some(c) => c,
            None => return Err(self.error_here("unterminated escape sequence")),
        };
        self.pos += 1;
        let e = if c == 'b' {
            '\u{8}'
        } else if c == 't' {
            '\t'
        } else if c == 'n' {
            '\n'
        } else if c == 'f' {
            '\u{c}'
        } else if c == 'r' {
            '\r'
        } else if c == 'e' {
            '\u{1b}'
        } else if c == '"' {
            '"'
        } else if c == '\\' {
            '\\'
        } else if c == 'x' {
            return self.parse_escape_codepoint(2, start, out);
        } else if c == 'u' {
            return self.parse_escape_codepoint(4, start, out);
        } else if c == 'U' {
            return self.parse_escape_codepoint(8, start, out);
        } else {
            return Err(self.error_at(start, "invalid escape sequence".to_owned()));
        };
        push_char(out, e);
        Ok(())
    }

    /// The `\x`, `\u` or `\U` escapes: `digits` hexadecimal digits naming a
    /// Unicode scalar value. The cursor is on the first digit.
    fn parse_escape_codepoint(&mut self, digits: usize, start: usize, out: &mut String) -> (r:
        Result<(), Error>)
        requires
            old(self).wf(),
            start + 1 == old(self).pos,
            start < old(self).cs.len(),
            digits == 2 && old(self).cs@[start as int] == 'x' || digits == 4 && old(self).cs@[start as int] == 'u'
                || digits == 8 && old(self).cs@[start as int] == 'U',
        ensures
            has_line(r),
            final(self).moved_from(&*old(self)),
            r is Ok ==> (escape_at(old(self).cs@, start as int) matches Some((c, e))
                && final(self).pos == e && final(out)@ == old(out)@.push(c)),
            r is Err ==> escape_at(old(self).cs@, start as int) is None,
    {
        let ghost s = self.cs@;
        if digits > self.cs.len() || self.pos > self.cs.len() - digits {
            return Err(self.error_at(start, hex_digits_message(digits)));
        }
        let end = self.pos + digits;
        let mut i = self.pos;
        let mut code: u32 = 0;
        while i < end
            invariant
                self.moved_from(&*old(self)),
                self.pos == old(self).pos,
                s == self.cs@,
                start + 1 == self.pos,
                digits == 2 && s[start as int] == 'x' || digits == 4 && s[start as int] == 'u'
                    || digits == 8 && s[start as int] == 'U',
                self.pos <= i <= end <= self.cs.len(),
                end == self.pos + digits,
                digits <= 8,
                all_hex(self.cs@, self.pos as int, i as int),
                code == radix_value(self.cs@.subrange(self.pos as int, i as int), 16),
                code < pow16((i - self.pos) as nat),
            decreases end - i,
        {
            if !radix_digit(self.cs[i], 16) {
                assert(!all_hex(s, start + 1, end as int));
                return Err(self.error_at(start, hex_digits_message(digits)));
            }
            let d: u32 = hex_digit_value(self.cs[i]);
            proof {
                lemma_pow16_small((i - self.pos) as nat);
                lemma_pow16_small((i - self.pos + 1) as nat);
                assert(pow16((i - self.pos + 1) as nat) == 16 * pow16((i - self.pos) as nat));
                let sub = self.cs@.subrange(self.pos as int, i + 1);
                assert(sub.drop_last() =~= self.cs@.subrange(self.pos as int, i as int));
            }
            code = code * 16 + d;
            i += 1;
        }
        proof {
            lemma_pow16_small(digits as nat);
            assert(escape_at(s, start as int) == if is_scalar_value(code as int) {
                Some((code as char, end as int))
            } else {
                None
            });
        }
        let c = match char_from_code(code) {
            Some(c) => c,
            None => return Err(self.error_at(start, "escape is not a Unicode scalar value".to_owned())),
        };
        proof {
            vstd::utf8::char_u32_cast(c, code);
        }
        self.pos = end;
        push_char(out, c);
        Ok(())
    }

    /// Parses a single-line basic (`"…"`) or literal (`'…'`) string; the
    /// cursor is on its opening quote.
    pub(crate) fn parse_quoted_string(&mut self, literal: bool) -> (r: Result<String, Error>)
        requires
            old(self).wf(),
            old(self).pos < old(self).cs.len(),
        ensures
            has_line(r),
            final(self).moved_from(&*old(self)),
            r matches Ok(t) ==> quoted_string(old(self).cs@, old(self).pos + 1, literal) == Some(
                (t@, final(self).pos as int),
            ) && final(self).pos > old(self).pos,
            r is Err ==> quoted_string(old(self).cs@, old(self).pos + 1, literal) is None,
    {
        let ghost s = self.cs@;
        let ghost i0 = self.pos + 1;
        let open = self.pos;
        let quote = if literal { '\'' } else { '"' };
        self.pos += 1;
        let mut out = String::new();
        assert(Seq::<char>::empty() + s.take(0) =~= Seq::<char>::empty());
        loop
            invariant
                self.moved_from(&*old(self)),
                s == self.cs@,
                open < self.pos,
                open == old(self).pos,
                i0 == open + 1,
                quote == if literal { '\'' } else { '"' },
                quoted_string(s, i0, literal) == prefixed(out@, quoted_string(s, self.pos as int, literal)),
            decreases self.cs.len() - self.pos,
        {
            let c = match self.peek() {
                Some(c) => c,
                None => {
                    assert(quoted_string(s, self.pos as int, literal) is None);
                    return Err(self.error_at(open, "unterminated string".to_owned()));
                },
            };
            if c == quote {
                assert(quoted_string(s, self.pos as int, literal) == Some(
                    (Seq::<char>::empty(), self.pos + 1),
                ));
                self.pos += 1;
                assert(out@ + Seq::<char>::empty() =~= out@);
                return Ok(out);
            } else if c == '\\' && !literal {
                let ghost before = out@;
                let ghost at = self.pos;
                self.pos += 1;
                self.parse_escape(&mut out)?;
                proof {
                    let (e, j) = escape_at(s, at + 1)->Some_0;
                    match basic_string(s, j) {
                        Some((r, _)) => {
                            assert(before + (seq![e] + r) =~= out@ + r);
                        },
                        None => {},
                    }
                }
            } else if c == '\n' || c == '\r' {
                return Err(self.error_here("a single-line string cannot contain a newline"));
            } else if (c < ' ' && c != '\t') || c == '\u{7f}' {
                return Err(self.error_here("invalid control character in string"));
            } else {
                let ghost before = out@;
                push_char(&mut out, c);
                proof {
                    match quoted_string(s, self.pos + 1, literal) {
                        Some((r, _)) => {
                            assert(before + (seq![c] + r) =~= out@ + r);
                        },
                        None => {},
                    }
                }
                self.pos += 1;
            }
        }
    }
}

impl Parser {
    /// Whether the backslash at the cursor is followed only by spaces and
    /// tabs up to the end of its line.
    fn at_line_ending_backslash(&self) -> (b: bool)
        requires
            self.wf(),
            self.pos < self.cs.len(),
        ensures
            b == line_ending_backslash(self.cs@, self.pos as int),
    {
        let mut j = self.pos + 1;
        while j < self.cs.len() && (self.cs[j] == ' ' || self.cs[j] == '\t')
            invariant
                self.wf(),
                self.pos + 1 <= j <= self.cs.len(),
                spaces_end(self.cs@, j as int) == spaces_end(self.cs@, self.pos + 1),
            decreases self.cs.len() - j,
        {
            j += 1;
        }
        if j >= self.cs.len() {
            false
        } else if self.cs[j] == '\n' {
            true
        } else {
            self.cs[j] == '\r' && j + 1 < self.cs.len() && self.cs[j + 1] == '\n'
        }
    }

    /// How many copies of `q` follow one another from the cursor.
    fn quote_count(&self, q: char) -> (n: usize)
        requires
            self.wf(),
        ensures
            n == quote_run(self.cs@, self.pos as int, q),
            self.pos + n <= self.cs.len(),
    {
        let mut n: usize = 0;
        while self.pos + n < self.cs.len() && self.cs[self.pos + n] == q
            invariant
                self.wf(),
                self.pos + n <= self.cs.len(),
                quote_run(self.cs@, self.pos as int, q) == n + quote_run(self.cs@, self.pos + n, q),
            decreases self.cs.len() - self.pos - n,
        {
            n += 1;
        }
        n
    }

    /// After a line-ending backslash: skips spaces, tabs and newlines.
    fn skip_folded_lines(&mut self) -> (r: Result<(), Error>)
        requires
            old(self).wf(),
        ensures
            has_line(r),
            final(self).moved_from(&*old(self)),
            final(self).pos >= old(self).pos,
            r is Ok ==> skip_folded(old(self).cs@, old(self).pos as int) == Some(final(self).pos as int),
            r is Err ==> skip_folded(old(self).cs@, old(self).pos as int) is None,
    {
        loop
            invariant_except_break
                skip_folded(self.cs@, self.pos as int) == skip_folded(self.cs@, old(self).pos as int),
            invariant
                self.moved_from(&*old(self)),
                self.pos >= old(self).pos,
            ensures
                skip_folded(self.cs@, old(self).pos as int) == Some(self.pos as int),
            decreases self.cs.len() - self.pos,
        {
            self.skip_spaces();
            match self.consume_newline() {
                Ok(true) => {},
                Ok(false) => break,
                Err(e) => return Err(e),
            }
        }
        Ok(())
    }

    /// Appends `n` copies of `q` to `out`.
    fn push_quotes(out: &mut String, q: char, n: usize)
        ensures
            final(out)@ == old(out)@ + Seq::new(n as nat, |_k: int| q),
    {
        let mut i: usize = 0;
        while i < n
            invariant
                i <= n,
                out@ == old(out)@ + Seq::new(i as nat, |_k: int| q),
            decreases n - i,
        {
            push_char(out, q);
            i += 1;
            assert(out@ =~= old(out)@ + Seq::new(i as nat, |_k: int| q));
        }
    }

    /// Parses a multi-line basic or literal string, delimited by three
    /// double or three single quotes; the cursor is on the first quote of its
    /// opening delimiter.
    pub(crate) fn parse_multiline_string(&mut self, literal: bool) -> (r: Result<String, Error>)
        requires
            old(self).wf(),
            old(self).pos + 3 <= old(self).cs.len(),
        ensures
            has_line(r),
            final(self).moved_from(&*old(self)),
            r matches Ok(t) ==> multiline_string(old(self).cs@, old(self).pos as int, literal) == Some(
                (t@, final(self).pos as int),
            ) && final(self).pos > old(self).pos,
            r is Err ==> multiline_string(old(self).cs@, old(self).pos as int, literal) is None,
    {
        let ghost s = self.cs@;
        let quote = if literal { '\'' } else { '"' };
        let open = self.pos;
        self.pos += 3;
        self.consume_newline()?;
        let mut out = String::new();
        assert(multiline_string(s, open as int, literal) == prefixed(out@, multiline_body(s, self.pos as int, literal))) by {
            match multiline_body(s, self.pos as int, literal) {
                Some((r, _)) => assert(Seq::<char>::empty() + r =~= r),
                None => {},
            }
        }
        loop
            invariant
                self.moved_from(&*old(self)),
                s == self.cs@,
                open == old(self).pos,
                open < self.pos,
                quote == if literal { '\'' } else { '"' },
                multiline_string(s, open as int, literal) == prefixed(out@, multiline_body(s, self.pos as int, literal)),
            decreases self.cs.len() - self.pos,
        {
            let ghost i = self.pos as int;
            let ghost before = out@;
            let c = match self.peek() {
                Some(c) => c,
                None => return Err(self.error_at(open, "unterminated string".to_owned())),
            };
            if c == quote {
                let n = self.quote_count(quote);
                if n < 3 {
                    Self::push_quotes(&mut out, quote, n);
                    self.pos += n;
                    proof {
                        match multiline_body(s, self.pos as int, literal) {
                            Some((r, _)) => {
                                assert(before + (Seq::new(n as nat, |_k: int| quote) + r) =~= out@ + r);
                            },
                            None => {},
                        }
                    }
                } else if n > 5 {
                    return Err(self.error_here("too many quotes at the end of a multi-line string"));
                } else {
                    Self::push_quotes(&mut out, quote, n - 3);
                    self.pos += n;
                    return Ok(out);
                }
            } else if c == '\\' && !literal {
                if self.at_line_ending_backslash() {
                    self.pos += 1;
                    self.skip_folded_lines()?;
                } else {
                    self.pos += 1;
                    self.parse_escape(&mut out)?;
                    proof {
                        let (e, j) = escape_at(s, i + 1)->Some_0;
                        match multiline_body(s, j, literal) {
                            Some((r, _)) => {
                                assert(before + (seq![e] + r) =~= out@ + r);
                            },
                            None => {},
                        }
                    }
                }
            } else if c == '\n' {
                push_char(&mut out, '\n');
                self.pos += 1;
                proof {
                    match multiline_body(s, self.pos as int, literal) {
                        Some((r, _)) => {
                            assert(before + (seq!['\n'] + r) =~= out@ + r);
                        },
                        None => {},
                    }
                }
            } else if c == '\r' && self.peek_at(1) == Some('\n') {
                push_char(&mut out, '\n');
                self.pos += 2;
                proof {
                    match multiline_body(s, self.pos as int, literal) {
                        Some((r, _)) => {
                            assert(before + (seq!['\n'] + r) =~= out@ + r);
                        },
                        None => {},
                    }
                }
            } else if (c < ' ' && c != '\t') || c == '\u{7f}' {
                return Err(self.error_here("invalid control character in string"));
            } else {
                push_char(&mut out, c);
                self.pos += 1;
                proof {
                    match multiline_body(s, self.pos as int, literal) {
                        Some((r, _)) => {
                            assert(before + (seq![c] + r) =~= out@ + r);
                        },
                        None => {},
                    }
                }
            }
        }
    }

    // ----- keys -----------------------------------------------------------

    /// Parses a simple key: bare, or quoted in either style.
    pub(crate) fn parse_simple_key(&mut self) -> (r: Result<String, Error>)
        requires
            old(self).wf(),
        ensures
            has_line(r),
            final(self).moved_from(&*old(self)),
            r matches Ok(k) ==> simple_key(old(self).cs@, old(self).pos as int) == Some(
                (k@, final(self).pos as int),
            ) && final(self).pos > old(self).pos,
            r is Err ==> simple_key(old(self).cs@, old(self).pos as int) is None,
    {
        let ghost s = self.cs@;
        match self.peek() {
            Some(c) => {
                if c == '"' {
                    self.parse_quoted_string(false)
                } else if c == '\'' {
                    self.parse_quoted_string(true)
                } else if is_bare_key_char_exec(c) {
                    let start = self.pos;
                    self.pos += 1;
                    while self.pos < self.cs.len() && is_bare_key_char_exec(self.cs[self.pos])
                        invariant
                            self.moved_from(&*old(self)),
                            s == self.cs@,
                            start == old(self).pos,
                            start < self.pos,
                            bare_key_end(s, self.pos as int) == bare_key_end(s, start as int),
                        decreases self.cs.len() - self.pos,
                    {
                        self.pos += 1;
                    }
                    Ok(string_from_chars(&self.cs, start, self.pos))
                } else {
                    Err(self.error_here("expected a key"))
                }
            },
            None => Err(self.error_here("expected a key")),
        }
    }

    /// Parses a possibly dotted key, such as `a.b."c d"`, and the spaces
    /// after it.
    pub(crate) fn parse_key(&mut self) -> (r: Result<Vec<String>, Error>)
        requires
            old(self).wf(),
        ensures
            has_line(r),
            final(self).moved_from(&*old(self)),
            r matches Ok(keys) ==> dotted_key(old(self).cs@, old(self).pos as int) == Some(
                (keys@.map_values(|k: String| k@), final(self).pos as int),
            ) && final(self).pos > old(self).pos && keys@.len() > 0,
            r is Err ==> dotted_key(old(self).cs@, old(self).pos as int) is None,
    {
        let ghost s = self.cs@;
        let first = self.parse_simple_key()?;
        let mut keys: Vec<String> = Vec::new();
        keys.push(first);
        assert(keys@.map_values(|k: String| k@) =~= seq![first@]);
        loop
            invariant
                self.moved_from(&*old(self)),
                s == self.cs@,
                self.pos > old(self).pos,
                keys@.len() > 0,
                dotted_key(s, old(self).pos as int) == match key_tail(s, self.pos as int) {
                    Some((rest, end)) => Some((keys@.map_values(|k: String| k@) + rest, end)),
                    None => None::<(Seq<Seq<char>>, int)>,
                },
            decreases self.cs.len() - self.pos,
        {
            let ghost j = self.pos as int;
            let ghost before = keys@.map_values(|k: String| k@);
            self.skip_spaces();
            if self.peek() != Some('.') {
                assert(before + Seq::<Seq<char>>::empty() =~= before);
                return Ok(keys);
            }
            self.pos += 1;
            self.skip_spaces();
            let part = self.parse_simple_key()?;
            keys.push(part);
            proof {
                assert(keys@.map_values(|k: String| k@) =~= before.push(part@));
                match key_tail(s, self.pos as int) {
                    Some((rest, end)) => {
                        assert(before + (seq![part@] + rest) =~= before.push(part@) + rest);
                    },
                    None => {},
                }
            }
        }
    }
}

/// Whether `c` may appear in a bare key.
fn is_bare_key_char_exec(c: char) -> (b: bool)
    ensures
        b == is_bare_key_char(c),
{
    ('a' <= c && c <= 'z') || ('A' <= c && c <= 'Z') || ('0' <= c && c <= '9') || c == '_' || c == '-'
}

/// The message for a short or malformed `\x`, `\u` or `\U` escape.
fn hex_digits_message(digits: usize) -> (m: String)
    ensures
        m@ == if digits == 2 {
            "expected 2 hexadecimal digits in the escape sequence"@
        } else if digits == 4 {
            "expected 4 hexadecimal digits in the escape sequence"@
        } else {
            "expected 8 hexadecimal digits in the escape sequence"@
        },
{
    if digits == 2 {
        "expected 2 hexadecimal digits in the escape sequence".to_owned()
    } else if digits == 4 {
        "expected 4 hexadecimal digits in the escape sequence".to_owned()
    } else {
        "expected 8 hexadecimal digits in the escape sequence".to_owned()
    }
}

/// The value of a hexadecimal digit.
fn hex_digit_value(c: char) -> (d: u32)
    requires
        is_radix_digit(c, 16),
    ensures
        d == radix_digit_val(c),
        d < 16,
{
    if '0' <= c && c <= '9' {
        (c as u32) - 48
    } else if 'a' <= c && c <= 'f' {
        (c as u32) - 87
    } else {
        (c as u32) - 55
    }
}

/// Sixteen to the power `n`.
pub open spec fn pow16(n: nat) -> int
    decreases n,
{
    if n == 0 {
        1
    } else {
        16 * pow16((n - 1) as nat)
    }
}

/// Powers of sixteen up to the eighth stay within 32 bits.
pub proof fn lemma_pow16_small(n: nat)
    requires
        n <= 8,
    ensures
        1 <= pow16(n) <= 0x1_0000_0000,
{
    assert(pow16(0) == 1);
    assert(pow16(1) == 16);
    assert(pow16(2) == 0x100);
    assert(pow16(3) == 0x1000);
    assert(pow16(4) == 0x1_0000);
    assert(pow16(5) == 0x10_0000);
    assert(pow16(6) == 0x100_0000);
    assert(pow16(7) == 0x1000_0000);
    assert(pow16(8) == 0x1_0000_0000);
    if n == 0 {
    } else if n == 1 {
    } else if n == 2 {
    } else if n == 3 {
    } else if n == 4 {
    } else if n == 5 {
    } else if n == 6 {
    } else if n == 7 {
    } else {
    }
}

/// A comment's body ends at or after where it starts.
pub proof fn lemma_comment_end_after(s: Seq<char>, i: int)
    requires
        0 <= i,
    ensures
        comment_end(s, i) matches Some(j) ==> i <= j <= s.len() || (i > s.len() && j == i),
    decreases s.len() - i,
{
    if !(i < 0 || i >= s.len() || newline_len(s, i) > 0) && !is_control(s[i]) {
        lemma_comment_end_after(s, i + 1);
    }
}

} // verus!

verus! {

/// What the number or date-time at `i` reads as: `v`, ending at `e`.
pub open spec fn number_text(s: Seq<char>, i: int, v: Value, e: int) -> bool {
    match spec_scan(s, i) {
        Ok(Some((dt, end))) => value_end_ok(s, end) && v == Value::Datetime(dt) && e == end,
        Ok(None) => e == token_end(s, i) && (spec_number(s.subrange(i, e)) matches Some(n) && denotes(v, n)),
        Err(_) => false,
    }
}

/// Whether the text at `i` reads as a number or a date-time.
pub open spec fn number_ok(s: Seq<char>, i: int) -> bool {
    match spec_scan(s, i) {
        Ok(Some((_, end))) => value_end_ok(s, end),
        Ok(None) => spec_number(s.subrange(i, token_end(s, i))) is Some,
        Err(_) => false,
    }
}

/// Characters a number or a date-time may start with.
pub open spec fn starts_number(c: char) -> bool {
    ('0' <= c && c <= '9') || c == '+' || c == '-' || c == 'i' || c == 'n'
}

/// What the value starting at `i` reads as: `v`, ending at `e`. Strings,
/// booleans, numbers and date-times are described in full; of an array or an
/// inline table, its kind and its closing bracket (`value_tree` describes
/// those in full).
pub open spec fn value_text(s: Seq<char>, i: int, v: Value, e: int) -> bool {
    let c = s[i];
    if c == '"' || c == '\'' {
        v matches Value::String(t) && string_value(s, i) == Some((t@, e))
    } else if c == 't' || c == 'f' {
        bool_value(s, i) == Some((v->Boolean_0, e)) && v is Boolean
    } else if c == '[' {
        v is Array && s[e - 1] == ']'
    } else if c == '{' {
        v is Table && s[e - 1] == '}'
    } else {
        starts_number(c) && number_text(s, i, v, e)
    }
}

/// Whether `k` is one of the keys of the entries `e`.
pub open spec fn tree_has(e: Seq<(Seq<char>, Tree)>, k: Seq<char>) -> bool {
    exists|i: int| 0 <= i < e.len() && #[trigger] e[i].0 == k
}

/// The first position of `k` among the keys of the entries `e`.
pub open spec fn tree_index(e: Seq<(Seq<char>, Tree)>, k: Seq<char>) -> int {
    choose|i: int|
        #![trigger e[i]]
        0 <= i < e.len() && e[i].0 == k && forall|j: int| 0 <= j < i ==> #[trigger] e[j].0 != k
}

/// What setting the dotted key `keys[k..]` to `w` makes of the entries
/// `acc` of an inline table, and of the set of key paths that dotted keys
/// created tables at; `None` where the key is refused. The last key must be
/// new; each key before it names a table, created empty when missing, and
/// an existing one only when a dotted key created it.
pub open spec fn dotted_insert(
    acc: Seq<(Seq<char>, Tree)>,
    keys: Seq<Seq<char>>,
    k: int,
    w: Tree,
    dotted: Set<Seq<Seq<char>>>,
) -> Option<(Seq<(Seq<char>, Tree)>, Set<Seq<Seq<char>>>)>
    decreases keys.len() - k,
{
    if k < 0 || k >= keys.len() {
        None
    } else if k + 1 == keys.len() {
        if tree_has(acc, keys[k]) {
            None
        } else {
            Some((acc.push((keys[k], w)), dotted))
        }
    } else if !tree_has(acc, keys[k]) {
        match dotted_insert(Seq::empty(), keys, k + 1, w, dotted.insert(keys.take(k + 1))) {
            Some((sub, d)) => Some((acc.push((keys[k], Tree::Tab(sub))), d)),
            None => None,
        }
    } else if !dotted.contains(keys.take(k + 1)) {
        None
    } else {
        let i = tree_index(acc, keys[k]);
        match acc[i].1 {
            Tree::Tab(sub0) => match dotted_insert(sub0, keys, k + 1, w, dotted) {
                Some((sub, d)) => Some((acc.update(i, (keys[k], Tree::Tab(sub))), d)),
                None => None,
            },
            _ => None,
        }
    }
}

/// What the number or date-time starting at `i` reads as, and where it
/// ends.
pub open spec fn number_tree(s: Seq<char>, i: int) -> Option<(Tree, int)> {
    match spec_scan(s, i) {
        Ok(Some((dt, end))) => if value_end_ok(s, end) {
            Some((Tree::Dt(dt), end))
        } else {
            None
        },
        Ok(None) => {
            let e = token_end(s, i);
            match spec_number(s.subrange(i, e)) {
                Some(Number::Int(x)) => Some((Tree::Int(x), e)),
                Some(Number::Float(f)) => Some((Tree::Float(f), e)),
                None => None,
            }
        },
        Err(_) => None,
    }
}

/// What the value starting at `i` reads as, and where it ends; `None` where
/// no value can be read.
pub open spec fn value_tree(s: Seq<char>, i: int) -> Option<(Tree, int)>
    decreases s.len() - i, 0int,
{
    if i < 0 || i >= s.len() {
        None
    } else {
        let c = s[i];
        if c == '"' || c == '\'' {
            match string_value(s, i) {
                Some((t, e)) => Some((Tree::Str(t), e)),
                None => None,
            }
        } else if c == 't' || c == 'f' {
            match bool_value(s, i) {
                Some((b, e)) => Some((Tree::Bool(b), e)),
                None => None,
            }
        } else if c == '[' {
            match items_tree(s, i + 1) {
                Some((items, e)) => Some((Tree::Arr(items), e)),
                None => None,
            }
        } else if c == '{' {
            match entries_tree(s, i + 1, Seq::empty(), Set::empty()) {
                Some((es, e)) => Some((Tree::Tab(es), e)),
                None => None,
            }
        } else if starts_number(c) {
            number_tree(s, i)
        } else {
            None
        }
    }
}

/// The items of an array from `p`, just past its `[` or a comma, and where
/// its `]` ends: values separated by commas, with whitespace, newlines and
/// comments around each, and perhaps a comma after the last.
pub open spec fn items_tree(s: Seq<char>, p: int) -> Option<(Seq<Tree>, int)>
    decreases s.len() - p, 1int,
{
    match trivia_end(s, p) {
        Some(q) => if !(p <= q < s.len()) {
            None
        } else if s[q] == ']' {
            Some((Seq::empty(), q + 1))
        } else {
            match value_tree(s, q) {
                Some((x, r)) => if !(q < r) {
                    None
                } else {
                    match trivia_end(s, r) {
                        Some(t) => if !(r <= t < s.len()) {
                            None
                        } else if s[t] == ',' {
                            match items_tree(s, t + 1) {
                                Some((rest, e)) => Some((seq![x] + rest, e)),
                                None => None,
                            }
                        } else if s[t] == ']' {
                            Some((seq![x], t + 1))
                        } else {
                            None
                        },
                        None => None,
                    }
                },
                None => None,
            }
        },
        None => None,
    }
}

/// The entries of an inline table from `p`, just past its `{` or a comma,
/// and where its `}` ends: `key = value` pairs separated by commas, with
/// whitespace, newlines and comments around each, and perhaps a comma after
/// the last. `acc` holds the entries read before `p` and `dotted` the key
/// paths that dotted keys created tables at.
pub open spec fn entries_tree(s: Seq<char>, p: int, acc: Seq<(Seq<char>, Tree)>, dotted: Set<Seq<Seq<char>>>) -> Option<
    (Seq<(Seq<char>, Tree)>, int),
>
    decreases s.len() - p, 1int,
{
    match trivia_end(s, p) {
        Some(q) => if !(p <= q < s.len()) {
            None
        } else if s[q] == '}' {
            Some((acc, q + 1))
        } else {
            match dotted_key(s, q) {
                Some((keys, k_end)) => {
                    let a = spaces_end(s, k_end);
                    let b = spaces_end(s, a + 1);
                    if !(q < k_end <= a < s.len() && s[a] == '=' && a < b <= s.len()) {
                        None
                    } else {
                        match value_tree(s, b) {
                            Some((w, r)) => if !(b < r) {
                                None
                            } else {
                                match dotted_insert(acc, keys, 0, w, dotted) {
                                    Some((acc2, d2)) => match trivia_end(s, r) {
                                        Some(t) => if !(r <= t < s.len()) {
                                            None
                                        } else if s[t] == ',' {
                                            entries_tree(s, t + 1, acc2, d2)
                                        } else if s[t] == '}' {
                                            Some((acc2, t + 1))
                                        } else {
                                            None
                                        },
                                        None => None,
                                    },
                                    None => None,
                                }
                            },
                            None => None,
                        }
                    }
                },
                None => None,
            }
        },
        None => None,
    }
}

/// A string, boolean, number or date-time reads the same as a value and as
/// a mathematical object.
proof fn lemma_scalar_tree(s: Seq<char>, i: int, v: Value, e: int)
    requires
        0 <= i < s.len(),
        value_text(s, i, v, e),
        s[i] != '[',
        s[i] != '{',
    ensures
        value_tree(s, i) == Some((tree_of(v), e)),
{
    let c = s[i];
    if !(c == '"' || c == '\'' || c == 't' || c == 'f') {
        match spec_scan(s, i) {
            Ok(Some((dt, end))) => {},
            Ok(None) => {
                let n = spec_number(s.subrange(i, e))->Some_0;
                match n {
                    Number::Int(x) => {},
                    Number::Float(f) => {},
                }
            },
            Err(_) => {},
        }
    }
}

/// The items read so far, `done`, followed by those from `p` on.
pub open spec fn items_after(s: Seq<char>, done: Seq<Tree>, p: int) -> Option<(Seq<Tree>, int)> {
    match items_tree(s, p) {
        Some((rest, e)) => Some((done + rest, e)),
        None => None,
    }
}

/// Before any item is read, what follows is the whole array.
proof fn lemma_items_after_start(s: Seq<char>, p: int)
    ensures
        items_after(s, Seq::empty(), p) == items_tree(s, p),
{
    match items_tree(s, p) {
        Some((rest, e)) => {
            assert(Seq::<Tree>::empty() + rest =~= rest);
        },
        None => {},
    }
}

/// The closing bracket of an array, after trivia.
proof fn lemma_items_after_end(s: Seq<char>, done: Seq<Tree>, p: int, q: int)
    requires
        0 <= p,
        trivia_end(s, p) == Some(q),
        p <= q < s.len(),
        s[q] == ']',
    ensures
        items_after(s, done, p) == Some((done, q + 1)),
{
    assert(done + Seq::<Tree>::empty() =~= done);
}

/// One more item, then a comma.
proof fn lemma_items_after_comma(s: Seq<char>, done: Seq<Tree>, p: int, q: int, x: Tree, r: int, t: int)
    requires
        0 <= p,
        trivia_end(s, p) == Some(q),
        p <= q < s.len(),
        s[q] != ']',
        value_tree(s, q) == Some((x, r)),
        q < r,
        trivia_end(s, r) == Some(t),
        r <= t < s.len(),
        s[t] == ',',
    ensures
        items_after(s, done, p) == items_after(s, done.push(x), t + 1),
{
    match items_tree(s, t + 1) {
        Some((rest, e)) => {
            assert(done + (seq![x] + rest) =~= done.push(x) + rest);
        },
        None => {},
    }
}

/// One more item, then the closing bracket.
proof fn lemma_items_after_close(s: Seq<char>, done: Seq<Tree>, p: int, q: int, x: Tree, r: int, t: int)
    requires
        0 <= p,
        trivia_end(s, p) == Some(q),
        p <= q < s.len(),
        s[q] != ']',
        value_tree(s, q) == Some((x, r)),
        q < r,
        trivia_end(s, r) == Some(t),
        r <= t < s.len(),
        s[t] == ']',
    ensures
        items_after(s, done, p) == Some((done.push(x), t + 1)),
{
    assert(done + seq![x] =~= done.push(x));
}

/// The closing brace of an inline table, after trivia.
proof fn lemma_entries_end(s: Seq<char>, p: int, q: int, acc: Seq<(Seq<char>, Tree)>, d: Set<Seq<Seq<char>>>)
    requires
        0 <= p,
        trivia_end(s, p) == Some(q),
        p <= q < s.len(),
        s[q] == '}',
    ensures
        entries_tree(s, p, acc, d) == Some((acc, q + 1)),
{
}

/// One more `key = value` pair, then a comma or the closing brace.
proof fn lemma_entries_step(
    s: Seq<char>,
    p: int,
    q: int,
    kv: Seq<Seq<char>>,
    k_end: int,
    a: int,
    b: int,
    w: Tree,
    r: int,
    t: int,
    acc: Seq<(Seq<char>, Tree)>,
    d: Set<Seq<Seq<char>>>,
    acc2: Seq<(Seq<char>, Tree)>,
    d2: Set<Seq<Seq<char>>>,
)
    requires
        0 <= p,
        trivia_end(s, p) == Some(q),
        p <= q < s.len(),
        s[q] != '}',
        dotted_key(s, q) == Some((kv, k_end)),
        a == spaces_end(s, k_end),
        b == spaces_end(s, a + 1),
        q < k_end <= a < s.len(),
        s[a] == '=',
        a < b <= s.len(),
        value_tree(s, b) == Some((w, r)),
        b < r,
        dotted_insert(acc, kv, 0, w, d) == Some((acc2, d2)),
        trivia_end(s, r) == Some(t),
        r <= t < s.len(),
    ensures
        s[t] == ',' ==> entries_tree(s, p, acc, d) == entries_tree(s, t + 1, acc2, d2),
        s[t] == '}' ==> entries_tree(s, p, acc, d) == Some((acc2, t + 1)),
{
}

/// How deeply arrays and inline tables nest in a value: 0 for a scalar, one
/// more than its deepest part for an array or a table.
pub open spec fn nesting(w: Tree) -> nat
    decreases w, 0int,
{
    match w {
        Tree::Arr(items) => 1 + items_nesting(items, items.len() as int),
        Tree::Tab(es) => 1 + entries_nesting(es, es.len() as int),
        _ => 0,
    }
}

/// The deepest nesting among the first `n` items.
pub open spec fn items_nesting(items: Seq<Tree>, n: int) -> nat
    decreases items, n,
{
    if n <= 0 || n > items.len() {
        0
    } else {
        let a = items_nesting(items, n - 1);
        let b = nesting(items[n - 1]);
        if a >= b {
            a
        } else {
            b
        }
    }
}

/// The deepest nesting among the values of the first `n` entries.
pub open spec fn entries_nesting(es: Seq<(Seq<char>, Tree)>, n: int) -> nat
    decreases es, n,
{
    if n <= 0 || n > es.len() {
        0
    } else {
        let a = entries_nesting(es, n - 1);
        let b = nesting(es[n - 1].1);
        if a >= b {
            a
        } else {
            b
        }
    }
}

/// No item nests deeper than the items together.
proof fn lemma_items_nesting_ge(items: Seq<Tree>, n: int, i: int)
    requires
        0 <= i < n <= items.len(),
    ensures
        items_nesting(items, n) >= nesting(items[i]),
    decreases n,
{
    if i < n - 1 {
        lemma_items_nesting_ge(items, n - 1, i);
    }
}

/// No entry nests deeper than the entries together.
proof fn lemma_entries_nesting_ge(es: Seq<(Seq<char>, Tree)>, n: int, i: int)
    requires
        0 <= i < n <= es.len(),
    ensures
        entries_nesting(es, n) >= nesting(es[i].1),
    decreases n,
{
    if i < n - 1 {
        lemma_entries_nesting_ge(es, n - 1, i);
    }
}

/// The deepest nesting among entries is that of one of them, or 0.
proof fn lemma_entries_nesting_attained(es: Seq<(Seq<char>, Tree)>, n: int)
    requires
        0 <= n <= es.len(),
    ensures
        n == 0 ==> entries_nesting(es, n) == 0,
        n > 0 ==> exists|j: int| 0 <= j < n && entries_nesting(es, n) == nesting(#[trigger] es[j].1),
    decreases n,
{
    if n > 0 {
        lemma_entries_nesting_attained(es, n - 1);
        if entries_nesting(es, n - 1) < nesting(es[n - 1].1) || n == 1 {
            assert(entries_nesting(es, n) == nesting(es[n - 1].1));
        } else {
            let j = choose|j: int| 0 <= j < n - 1 && entries_nesting(es, n - 1) == nesting(#[trigger] es[j].1);
            assert(entries_nesting(es, n) == nesting(es[j].1));
        }
    }
}

/// Entries nest no less once one of them is replaced by one that nests no
/// less.
proof fn lemma_entries_nesting_update(es: Seq<(Seq<char>, Tree)>, i: int, x: (Seq<char>, Tree))
    requires
        0 <= i < es.len(),
        nesting(x.1) >= nesting(es[i].1),
    ensures
        entries_nesting(es.update(i, x), es.len() as int) >= entries_nesting(es, es.len() as int),
        entries_nesting(es.update(i, x), es.len() as int) >= nesting(x.1),
{
    let n = es.len() as int;
    let u = es.update(i, x);
    lemma_entries_nesting_attained(es, n);
    let j = choose|j: int| 0 <= j < n && entries_nesting(es, n) == nesting(#[trigger] es[j].1);
    lemma_entries_nesting_ge(u, n, j);
    lemma_entries_nesting_ge(u, n, i);
}

/// Entries nest no less once one more is added.
proof fn lemma_entries_nesting_push(es: Seq<(Seq<char>, Tree)>, x: (Seq<char>, Tree))
    ensures
        entries_nesting(es.push(x), (es.len() + 1) as int) >= entries_nesting(es, es.len() as int),
        entries_nesting(es.push(x), (es.len() + 1) as int) >= nesting(x.1),
{
    let n = es.len() as int;
    let u = es.push(x);
    assert(u.drop_last() =~= es);
    lemma_entries_nesting_prefix(u, es, n);
}

/// The deepest nesting among the first `n` entries depends on those alone.
proof fn lemma_entries_nesting_prefix(u: Seq<(Seq<char>, Tree)>, es: Seq<(Seq<char>, Tree)>, n: int)
    requires
        0 <= n <= es.len(),
        n <= u.len(),
        forall|j: int| 0 <= j < n ==> u[j] == es[j],
    ensures
        entries_nesting(u, n) == entries_nesting(es, n),
    decreases n,
{
    if n > 0 {
        lemma_entries_nesting_prefix(u, es, n - 1);
    }
}

/// Some position at or before `w` holds `k` first.
proof fn lemma_tree_first_at_or_before(e: Seq<(Seq<char>, Tree)>, k: Seq<char>, w: int)
    requires
        0 <= w < e.len(),
        e[w].0 == k,
    ensures
        exists|i: int|
            #![trigger e[i]]
            0 <= i < e.len() && e[i].0 == k && forall|j: int| 0 <= j < i ==> #[trigger] e[j].0 != k,
    decreases w,
{
    if exists|j: int| 0 <= j < w && #[trigger] e[j].0 == k {
        let j = choose|j: int| 0 <= j < w && #[trigger] e[j].0 == k;
        lemma_tree_first_at_or_before(e, k, j);
    } else {
        assert(e[w].0 == k);
    }
}

/// Where a key that is present first occurs among entries.
pub proof fn lemma_tree_index(e: Seq<(Seq<char>, Tree)>, k: Seq<char>)
    requires
        tree_has(e, k),
    ensures
        0 <= tree_index(e, k) < e.len(),
        e[tree_index(e, k)].0 == k,
{
    let w = choose|i: int| 0 <= i < e.len() && #[trigger] e[i].0 == k;
    lemma_tree_first_at_or_before(e, k, w);
}

/// A dotted key's insertion keeps what the entries held, and puts the value
/// somewhere inside them: they nest no less than before, nor than it.
proof fn lemma_dotted_insert_nesting(
    acc: Seq<(Seq<char>, Tree)>,
    keys: Seq<Seq<char>>,
    k: int,
    w: Tree,
    dotted: Set<Seq<Seq<char>>>,
)
    requires
        dotted_insert(acc, keys, k, w, dotted) is Some,
    ensures
        entries_nesting((dotted_insert(acc, keys, k, w, dotted)->0).0, (dotted_insert(acc, keys, k, w, dotted)->0).0.len() as int)
            >= entries_nesting(acc, acc.len() as int),
        entries_nesting((dotted_insert(acc, keys, k, w, dotted)->0).0, (dotted_insert(acc, keys, k, w, dotted)->0).0.len() as int)
            >= nesting(w),
    decreases keys.len() - k,
{
    if k + 1 == keys.len() {
        lemma_entries_nesting_push(acc, (keys[k], w));
    } else if !tree_has(acc, keys[k]) {
        let (sub, d) = dotted_insert(Seq::empty(), keys, k + 1, w, dotted.insert(keys.take(k + 1)))->0;
        lemma_dotted_insert_nesting(Seq::empty(), keys, k + 1, w, dotted.insert(keys.take(k + 1)));
        lemma_entries_nesting_push(acc, (keys[k], Tree::Tab(sub)));
    } else {
        lemma_tree_index(acc, keys[k]);
        let i = tree_index(acc, keys[k]);
        let sub0 = acc[i].1->Tab_0;
        let (sub, d) = dotted_insert(sub0, keys, k + 1, w, dotted)->0;
        lemma_dotted_insert_nesting(sub0, keys, k + 1, w, dotted);
        lemma_entries_nesting_update(acc, i, (keys[k], Tree::Tab(sub)));
    }
}

/// Reading further entries keeps those read so far: the table nests no
/// less than they do.
proof fn lemma_entries_tree_nesting(s: Seq<char>, p: int, acc: Seq<(Seq<char>, Tree)>, dotted: Set<Seq<Seq<char>>>)
    requires
        entries_tree(s, p, acc, dotted) is Some,
    ensures
        entries_nesting((entries_tree(s, p, acc, dotted)->0).0, (entries_tree(s, p, acc, dotted)->0).0.len() as int)
            >= entries_nesting(acc, acc.len() as int),
    decreases s.len() - p,
{
    let q = trivia_end(s, p)->0;
    if s[q] != '}' {
        let (keys, k_end) = dotted_key(s, q)->0;
        let a = spaces_end(s, k_end);
        let b = spaces_end(s, a + 1);
        let (w, r) = value_tree(s, b)->0;
        let (acc2, d2) = dotted_insert(acc, keys, 0, w, dotted)->0;
        lemma_dotted_insert_nesting(acc, keys, 0, w, dotted);
        let t = trivia_end(s, r)->0;
        if s[t] == ',' {
            lemma_entries_tree_nesting(s, t + 1, acc2, d2);
        }
    }
}

/// The value of the next `key = value` pair of an inline table nests no
/// deeper than the entries the table ends up with.
proof fn lemma_entry_value_nesting(
    s: Seq<char>,
    p: int,
    acc: Seq<(Seq<char>, Tree)>,
    d: Set<Seq<Seq<char>>>,
    q: int,
    kv: Seq<Seq<char>>,
    k_end: int,
    a: int,
    b: int,
)
    requires
        0 <= p,
        entries_tree(s, p, acc, d) is Some,
        trivia_end(s, p) == Some(q),
        p <= q < s.len(),
        s[q] != '}',
        dotted_key(s, q) == Some((kv, k_end)),
        a == spaces_end(s, k_end),
        b == spaces_end(s, a + 1),
    ensures
        value_tree(s, b) matches Some((w, _)) && nesting(w) <= entries_nesting(
            (entries_tree(s, p, acc, d)->0).0,
            (entries_tree(s, p, acc, d)->0).0.len() as int,
        ),
{
    let (w, r) = value_tree(s, b)->0;
    let (acc2, d2) = dotted_insert(acc, kv, 0, w, d)->0;
    lemma_dotted_insert_nesting(acc, kv, 0, w, d);
    let t = trivia_end(s, r)->0;
    if s[t] == ',' {
        lemma_entries_tree_nesting(s, t + 1, acc2, d2);
    }
}

/// Whether no scalar value can be read at `i`: at the end of the document,
/// at a character no value starts with, or where the string, boolean or
/// number there is malformed. (Arrays and inline tables fail for reasons of
/// their own.)
pub open spec fn value_fails(s: Seq<char>, i: int) -> bool {
    if i >= s.len() {
        true
    } else {
        let c = s[i];
        if c == '"' || c == '\'' {
            string_value(s, i) is None
        } else if c == 't' || c == 'f' {
            bool_value(s, i) is None
        } else if c == '[' || c == '{' {
            true
        } else if starts_number(c) {
            !number_ok(s, i)
        } else {
            true
        }
    }
}

impl Parser {
    // ----- values ---------------------------------------------------------

    /// Checks that a bare value (number, boolean, date-time) is followed by
    /// something that can legitimately end it.
    fn expect_value_end(&self) -> (r: Result<(), Error>)
        requires
            self.wf(),
        ensures
            has_line(r),
            r is Ok <==> value_end_ok(self.cs@, self.pos as int),
    {
        if self.pos >= self.cs.len() {
            return Ok(());
        }
        let c = self.cs[self.pos];
        if c == ' ' || c == '\t' || c == '\r' || c == '\n' || c == ',' || c == ']' || c == '}' || c == '#' {
            Ok(())
        } else {
            Err(self.error_here("unexpected character after the value"))
        }
    }

    /// Whether the text at the cursor starts with `w`.
    fn looking_at(&self, w: &str) -> (b: bool)
        requires
            self.wf(),
        ensures
            b == starts_with_at(self.cs@, self.pos as int, w@),
    {
        let ws = str_chars(w);
        if ws.len() > self.cs.len() - self.pos {
            return false;
        }
        let mut k: usize = 0;
        while k < ws.len()
            invariant
                self.wf(),
                ws@ == w@,
                self.pos + ws.len() <= self.cs.len(),
                k <= ws.len(),
                forall|m: int| 0 <= m < k ==> self.cs@[self.pos + m] == ws@[m],
            decreases ws.len() - k,
        {
            if self.cs[self.pos + k] != ws[k] {
                assert(self.cs@.subrange(self.pos as int, self.pos + ws.len())[k as int] != ws@[k as int]);
                return false;
            }
            k += 1;
        }
        assert(self.cs@.subrange(self.pos as int, self.pos + ws.len()) =~= ws@);
        true
    }

    /// Parses `true` or `false`.
    fn parse_bool(&mut self) -> (r: Result<Value, Error>)
        requires
            old(self).wf(),
        ensures
            has_line(r),
            final(self).moved_from(&*old(self)),
            r matches Ok(v) ==> v is Boolean && bool_value(old(self).cs@, old(self).pos as int) == Some(
                (v->Boolean_0, final(self).pos as int),
            ),
            r is Err ==> bool_value(old(self).cs@, old(self).pos as int) is None,
    {
        proof {
            reveal_strlit("true");
            reveal_strlit("false");
        }
        if self.looking_at("true") {
            proof {
                let t = self.cs@;
                let i = self.pos as int;
                assert(t.subrange(i, i + 4)[0] == 't');
                if starts_with_at(t, i, "false"@) {
                    assert(t.subrange(i, i + 5)[0] == 'f');
                }
            }
            self.pos += 4;
            self.expect_value_end()?;
            return Ok(Value::Boolean(true));
        }
        if self.looking_at("false") {
            self.pos += 5;
            self.expect_value_end()?;
            return Ok(Value::Boolean(false));
        }
        Err(self.error_here("expected a value"))
    }

    /// Parses a number or a date-time.
    fn parse_number(&mut self) -> (r: Result<Value, Error>)
        requires
            old(self).wf(),
            old(self).pos < old(self).cs.len(),
            !is_value_end(old(self).cs@[old(self).pos as int]),
        ensures
            has_line(r),
            final(self).moved_from(&*old(self)),
            r matches Ok(v) ==> number_text(old(self).cs@, old(self).pos as int, v, final(self).pos as int)
                && final(self).pos > old(self).pos,
            r is Err ==> !number_ok(old(self).cs@, old(self).pos as int),
    {
        let start = self.pos;
        match datetime::scan(&self.cs, start) {
            Ok(Some((dt, end))) => {
                self.pos = end;
                self.expect_value_end()?;
                return Ok(Value::Datetime(dt));
            },
            Ok(None) => {},
            Err(e) => return Err(self.error_at(start, e.message().to_owned())),
        }
        let mut end = start;
        while end < self.cs.len() && !(self.cs[end] == ' ' || self.cs[end] == '\t' || self.cs[end] == '\r'
            || self.cs[end] == '\n' || self.cs[end] == ',' || self.cs[end] == ']' || self.cs[end] == '}'
            || self.cs[end] == '#')
            invariant
                self.wf(),
                start <= end <= self.cs.len(),
                token_end(self.cs@, end as int) == token_end(self.cs@, start as int),
            decreases self.cs.len() - end,
        {
            end += 1;
        }
        self.pos = end;
        let token = copy_range(&self.cs, start, end);
        match parse_number_token(&token) {
            Ok(v) => Ok(v),
            Err(m) => Err(self.error_at(start, m)),
        }
    }

    /// Parses a string value in any of its four flavours; the cursor is on
    /// the opening quote.
    fn parse_string_value(&mut self) -> (r: Result<Value, Error>)
        requires
            old(self).wf(),
            old(self).pos < old(self).cs.len(),
            old(self).cs@[old(self).pos as int] == '"' || old(self).cs@[old(self).pos as int] == '\'',
        ensures
            has_line(r),
            final(self).moved_from(&*old(self)),
            r matches Ok(v) ==> (v matches Value::String(t) && string_value(old(self).cs@, old(self).pos as int)
                == Some((t@, final(self).pos as int))) && final(self).pos > old(self).pos,
            r is Err ==> string_value(old(self).cs@, old(self).pos as int) is None,
    {
        let q = self.cs[self.pos];
        let literal = q == '\'';
        if self.peek_at(1) == Some(q) && self.peek_at(2) == Some(q) {
            let t = self.parse_multiline_string(literal)?;
            Ok(Value::String(t))
        } else {
            let t = self.parse_quoted_string(literal)?;
            Ok(Value::String(t))
        }
    }

    /// Parses any value.
    pub(crate) fn parse_value(&mut self) -> (r: Result<Value, Error>)
        requires
            old(self).wf(),
        ensures
            has_line(r),
            final(self).moved_from(&*old(self)),
            r matches Ok(v) ==> final(self).pos > old(self).pos && value_text(
                old(self).cs@,
                old(self).pos as int,
                v,
                final(self).pos as int,
            ),
            r matches Ok(v) ==> value_tree(old(self).cs@, old(self).pos as int) == Some(
                (tree_of(v), final(self).pos as int),
            ),
            r is Err ==> value_fails(old(self).cs@, old(self).pos as int),
            value_tree(old(self).cs@, old(self).pos as int) matches Some((w, _))
                && old(self).depth + nesting(w) <= MAX_DEPTH ==> r is Ok,
        decreases MAX_DEPTH - old(self).depth, 1int,
    {
        let ghost s = self.cs@;
        let ghost i = self.pos as int;
        match self.peek() {
            Some(c) => {
                if c == '[' {
                    self.parse_array()
                } else if c == '{' {
                    self.parse_inline_table()
                } else {
                    let r = if c == '"' || c == '\'' {
                        self.parse_string_value()
                    } else if c == 't' || c == 'f' {
                        self.parse_bool()
                    } else if ('0' <= c && c <= '9') || c == '+' || c == '-' || c == 'i' || c == 'n' {
                        self.parse_number()
                    } else {
                        Err(self.error_here("expected a value"))
                    };
                    proof {
                        if r is Ok {
                            lemma_scalar_tree(s, i, r->Ok_0, self.pos as int);
                        }
                    }
                    r
                }
            },
            None => Err(self.error_here("expected a value, found the end of the document")),
        }
    }

    /// Parses an array; the cursor is on its `[`.
    fn parse_array(&mut self) -> (r: Result<Value, Error>)
        requires
            old(self).wf(),
            old(self).pos < old(self).cs.len(),
            old(self).cs@[old(self).pos as int] == '[',
        ensures
            has_line(r),
            final(self).moved_from(&*old(self)),
            r matches Ok(v) ==> v is Array && final(self).pos > old(self).pos
                && old(self).cs@[final(self).pos - 1] == ']',
            r matches Ok(v) ==> value_tree(old(self).cs@, old(self).pos as int) == Some(
                (tree_of(v), final(self).pos as int),
            ),
            value_tree(old(self).cs@, old(self).pos as int) matches Some((w, _))
                && old(self).depth + nesting(w) <= MAX_DEPTH ==> r is Ok,
        decreases MAX_DEPTH - old(self).depth, 0int,
    {
        if self.depth == MAX_DEPTH {
            return Err(self.error_here("arrays and inline tables cannot nest more than 128 deep"));
        }
        self.depth += 1;
        let r = self.parse_array_items();
        self.depth -= 1;
        r
    }

    /// The items of an array and its closing bracket.
    #[verifier::spinoff_prover]
    #[verifier::rlimit(40)]
    fn parse_array_items(&mut self) -> (r: Result<Value, Error>)
        requires
            old(self).wf(),
            old(self).pos < old(self).cs.len(),
            old(self).cs@[old(self).pos as int] == '[',
        ensures
            has_line(r),
            final(self).moved_from(&*old(self)),
            r matches Ok(v) ==> v is Array && final(self).pos > old(self).pos
                && old(self).cs@[final(self).pos - 1] == ']',
            r matches Ok(v) ==> value_tree(old(self).cs@, old(self).pos as int) == Some(
                (tree_of(v), final(self).pos as int),
            ),
            items_tree(old(self).cs@, old(self).pos + 1) matches Some((items, _))
                && old(self).depth + items_nesting(items, items.len() as int) <= MAX_DEPTH ==> r is Ok,
        decreases MAX_DEPTH - old(self).depth, 2int,
    {
        let ghost s = self.cs@;
        let open = self.pos;
        self.pos += 1;
        let mut array: Vec<Value> = Vec::new();
        let ghost goal = items_tree(s, open + 1) matches Some((items, _))
            && old(self).depth + items_nesting(items, items.len() as int) <= MAX_DEPTH;
        let ghost all = (items_tree(s, open + 1)->0).0;
        proof {
            lemma_items_after_start(s, open + 1);
            assert(array@.map_values(|x: Value| tree_of(x)) =~= Seq::<Tree>::empty());
        }
        loop
            invariant
                self.moved_from(&*old(self)),
                s == self.cs@,
                self.pos > open,
                open == old(self).pos,
                s[open as int] == '[',
                items_tree(s, open + 1) == items_after(s, array@.map_values(|x: Value| tree_of(x)), self.pos as int),
                goal == (items_tree(s, open + 1) matches Some((items, _))
                    && old(self).depth + items_nesting(items, items.len() as int) <= MAX_DEPTH),
                goal ==> all == (items_tree(s, open + 1)->0).0,
            decreases self.cs.len() - self.pos,
        {
            let ghost p = self.pos as int;
            let ghost done = array@.map_values(|x: Value| tree_of(x));
            proof {
                if goal {
                    assert(items_tree(s, p) is Some);
                }
            }
            self.skip_trivia()?;
            let ghost q = self.pos as int;
            match self.peek() {
                None => return Err(self.error_at(open, "unterminated array".to_owned())),
                Some(c) => {
                    if c == ']' {
                        self.pos += 1;
                        proof {
                            lemma_items_after_end(s, done, p, q);
                            lemma_trees_of(array@);
                        }
                        return Ok(Value::Array(array));
                    }
                },
            }
            proof {
                if goal {
                    let rest = (items_tree(s, p)->0).0;
                    assert(all == done + rest);
                    let x0 = (value_tree(s, q)->0).0;
                    assert(value_tree(s, q) is Some);
                    assert(rest[0] == x0);
                    assert(all[done.len() as int] == x0);
                    lemma_items_nesting_ge(all, all.len() as int, done.len() as int);
                }
            }
            let v = self.parse_value()?;
            let ghost r = self.pos as int;
            let ghost x = tree_of(v);
            array.push(v);
            proof {
                assert(array@.map_values(|y: Value| tree_of(y)) =~= done.push(x));
            }
            self.skip_trivia()?;
            let ghost t = self.pos as int;
            match self.peek() {
                Some(c) => {
                    if c == ',' {
                        self.pos += 1;
                        proof {
                            lemma_items_after_comma(s, done, p, q, x, r, t);
                        }
                    } else if c == ']' {
                        self.pos += 1;
                        proof {
                            lemma_items_after_close(s, done, p, q, x, r, t);
                            lemma_trees_of(array@);
                        }
                        return Ok(Value::Array(array));
                    } else {
                        return Err(self.error_here("expected `,` or `]` in the array"));
                    }
                },
                None => return Err(self.error_at(open, "unterminated array".to_owned())),
            }
        }
    }

    /// Parses an inline table; the cursor is on its `{`.
    fn parse_inline_table(&mut self) -> (r: Result<Value, Error>)
        requires
            old(self).wf(),
            old(self).pos < old(self).cs.len(),
            old(self).cs@[old(self).pos as int] == '{',
        ensures
            has_line(r),
            final(self).moved_from(&*old(self)),
            r matches Ok(v) ==> v is Table && final(self).pos > old(self).pos
                && old(self).cs@[final(self).pos - 1] == '}',
            r matches Ok(v) ==> value_tree(old(self).cs@, old(self).pos as int) == Some(
                (tree_of(v), final(self).pos as int),
            ),
            value_tree(old(self).cs@, old(self).pos as int) matches Some((w, _))
                && old(self).depth + nesting(w) <= MAX_DEPTH ==> r is Ok,
        decreases MAX_DEPTH - old(self).depth, 0int,
    {
        if self.depth == MAX_DEPTH {
            return Err(self.error_here("arrays and inline tables cannot nest more than 128 deep"));
        }
        self.depth += 1;
        let r = self.parse_inline_table_entries();
        self.depth -= 1;
        r
    }

    /// The entries of an inline table and its closing brace. Newlines,
    /// comments and a trailing comma are allowed inside.
    #[verifier::spinoff_prover]
    #[verifier::rlimit(100)]
    fn parse_inline_table_entries(&mut self) -> (r: Result<Value, Error>)
        requires
            old(self).wf(),
            old(self).pos < old(self).cs.len(),
            old(self).cs@[old(self).pos as int] == '{',
        ensures
            has_line(r),
            final(self).moved_from(&*old(self)),
            r matches Ok(v) ==> v is Table && final(self).pos > old(self).pos
                && old(self).cs@[final(self).pos - 1] == '}',
            r matches Ok(v) ==> value_tree(old(self).cs@, old(self).pos as int) == Some(
                (tree_of(v), final(self).pos as int),
            ),
            entries_tree(old(self).cs@, old(self).pos + 1, Seq::empty(), Set::empty()) matches Some((es, _))
                && old(self).depth + entries_nesting(es, es.len() as int) <= MAX_DEPTH ==> r is Ok,
        decreases MAX_DEPTH - old(self).depth, 2int,
    {
        let ghost s = self.cs@;
        let open = self.pos;
        self.pos += 1;
        let mut table = Table::new();
        let mut dotted: Vec<Vec<String>> = Vec::new();
        let ghost goal = entries_tree(s, open + 1, Seq::empty(), Set::empty()) matches Some((es, _))
            && old(self).depth + entries_nesting(es, es.len() as int) <= MAX_DEPTH;
        proof {
            assert(entries_view(table@) =~= Seq::<(Seq<char>, Tree)>::empty());
            assert(dotted_set(dotted@) =~= Set::<Seq<Seq<char>>>::empty());
        }
        loop
            invariant
                self.moved_from(&*old(self)),
                s == self.cs@,
                self.pos > open,
                open == old(self).pos,
                s[open as int] == '{',
                entries_tree(s, open + 1, Seq::empty(), Set::empty()) == entries_tree(
                    s,
                    self.pos as int,
                    entries_view(table@),
                    dotted_set(dotted@),
                ),
                goal == (entries_tree(s, open + 1, Seq::empty(), Set::empty()) matches Some((es, _))
                    && old(self).depth + entries_nesting(es, es.len() as int) <= MAX_DEPTH),
            decreases self.cs.len() - self.pos,
        {
            let ghost p = self.pos as int;
            let ghost acc = entries_view(table@);
            let ghost d = dotted_set(dotted@);
            proof {
                if goal {
                    assert(entries_tree(s, p, acc, d) is Some);
                }
            }
            self.skip_trivia()?;
            let ghost q = self.pos as int;
            if self.peek() == Some('}') {
                self.pos += 1;
                proof {
                    lemma_entries_end(s, p, q, acc, d);
                    lemma_table_tree(table);
                }
                return Ok(Value::Table(table));
            }
            if self.pos >= self.cs.len() {
                return Err(self.error_at(open, "unterminated inline table".to_owned()));
            }
            let key_pos = self.pos;
            let keys = self.parse_key()?;
            let ghost k_end = self.pos as int;
            self.skip_spaces();
            let ghost a = self.pos as int;
            if self.peek() != Some('=') {
                return Err(self.error_here("expected `=` after the key"));
            }
            self.pos += 1;
            self.skip_spaces();
            let ghost b = self.pos as int;
            proof {
                if goal {
                    lemma_entry_value_nesting(s, p, acc, d, q, key_views(keys@), k_end, a, b);
                }
            }
            let value = self.parse_value()?;
            let ghost r = self.pos as int;
            let ghost w = tree_of(value);
            match insert_dotted(&mut table, &keys, 0, value, &mut dotted) {
                Ok(()) => {},
                Err(m) => return Err(self.error_at(key_pos, m)),
            }
            self.skip_trivia()?;
            let ghost t = self.pos as int;
            match self.peek() {
                Some(c) => {
                    proof {
                        lemma_entries_step(s, p, q, key_views(keys@), k_end, a, b, w, r, t, acc, d, entries_view(table@), dotted_set(dotted@));
                    }
                    if c == ',' {
                        self.pos += 1;
                    } else if c == '}' {
                        self.pos += 1;
                        proof {
                            lemma_table_tree(table);
                        }
                        return Ok(Value::Table(table));
                    } else {
                        return Err(self.error_here("expected `,` or `}` in the inline table"));
                    }
                },
                None => return Err(self.error_at(open, "unterminated inline table".to_owned())),
            }
        }
    }
}

/// The first `n` keys joined with dots.
fn dotted_name(keys: &Vec<String>, n: usize) -> (s: String)
    requires
        n <= keys.len(),
    ensures
        s@ == join(key_views(keys@).take(n as int), seq!['.']),
{
    let ghost kv = key_views(keys@);
    let mut s = String::new();
    let mut i: usize = 0;
    assert(kv.take(0) =~= Seq::<Seq<char>>::empty());
    while i < n
        invariant
            i <= n <= keys.len(),
            kv == key_views(keys@),
            s@ == join(kv.take(i as int), seq!['.']),
        decreases n - i,
    {
        proof {
            assert(kv.take(i + 1).drop_last() =~= kv.take(i as int));
            assert(kv.take(i + 1).last() == keys@[i as int]@);
        }
        if i > 0 {
            push_char(&mut s, '.');
        }
        push_str(&mut s, keys[i].as_str());
        proof {
            if i == 0 {
                assert(s@ =~= kv.take(1)[0]);
            } else {
                assert(s@ =~= join(kv.take(i as int), seq!['.']) + seq!['.'] + kv.take(i + 1).last());
            }
        }
        i += 1;
    }
    s
}

/// The keys as character sequences.
pub open spec fn key_views(p: Seq<String>) -> Seq<Seq<char>> {
    p.map_values(|k: String| k@)
}

/// Whether `prefix` is one of `paths`.
fn contains_keys(paths: &Vec<Vec<String>>, prefix: &Vec<String>) -> (b: bool)
    ensures
        b == exists|i: int| 0 <= i < paths@.len() && #[trigger] key_views(paths@[i]@) == key_views(prefix@),
{
    let mut i: usize = 0;
    while i < paths.len()
        invariant
            i <= paths.len(),
            forall|j: int| 0 <= j < i ==> #[trigger] key_views(paths@[j]@) != key_views(prefix@),
        decreases paths.len() - i,
    {
        if same_keys(&paths[i], prefix) {
            assert(key_views(paths@[i as int]@) == key_views(prefix@));
            return true;
        }
        i += 1;
    }
    false
}

/// Whether two key lists are equal.
fn same_keys(a: &Vec<String>, b: &Vec<String>) -> (r: bool)
    ensures
        r == (key_views(a@) == key_views(b@)),
{
    if a.len() != b.len() {
        assert(key_views(a@).len() != key_views(b@).len());
        return false;
    }
    let mut i: usize = 0;
    while i < a.len()
        invariant
            i <= a.len() == b.len(),
            forall|j: int| 0 <= j < i ==> #[trigger] a@[j]@ == b@[j]@,
        decreases a.len() - i,
    {
        if a[i] != b[i] {
            assert(key_views(a@)[i as int] != key_views(b@)[i as int]);
            return false;
        }
        i += 1;
    }
    assert(key_views(a@) =~= key_views(b@));
    true
}

/// The first `n` keys.
fn key_prefix(keys: &Vec<String>, n: usize) -> (p: Vec<String>)
    requires
        n <= keys.len(),
    ensures
        key_views(p@) == key_views(keys@).take(n as int),
{
    let mut p: Vec<String> = Vec::new();
    let mut i: usize = 0;
    assert(key_views(p@) =~= key_views(keys@).take(0));
    while i < n
        invariant
            i <= n <= keys.len(),
            p@.len() == i,
            key_views(p@) == key_views(keys@).take(i as int),
        decreases n - i,
    {
        let ghost before = p@;
        let k = keys[i].clone();
        p.push(k);
        assert(key_views(p@) =~= key_views(before).push(k@));
        assert(key_views(p@) =~= key_views(keys@).take(i + 1));
        i += 1;
    }
    p
}

/// The key paths that dotted keys created tables at, as a set.
pub open spec fn dotted_set(d: Seq<Vec<String>>) -> Set<Seq<Seq<char>>> {
    Set::new(|p: Seq<Seq<char>>| exists|j: int| 0 <= j < d.len() && #[trigger] key_views(d[j]@) == p)
}

/// Adding a key path to the list adds it to the set.
proof fn lemma_dotted_set_push(d: Seq<Vec<String>>, p: Vec<String>)
    ensures
        dotted_set(d.push(p)) == dotted_set(d).insert(key_views(p@)),
{
    let d2 = d.push(p);
    assert forall|x: Seq<Seq<char>>| dotted_set(d2).contains(x) == dotted_set(d).insert(key_views(p@)).contains(x) by {
        if dotted_set(d2).contains(x) {
            let j = choose|j: int| 0 <= j < d2.len() && #[trigger] key_views(d2[j]@) == x;
            if j < d.len() {
                assert(key_views(d[j]@) == x);
            }
        }
        if dotted_set(d).contains(x) {
            let j = choose|j: int| 0 <= j < d.len() && #[trigger] key_views(d[j]@) == x;
            assert(key_views(d2[j]@) == x);
        }
        if x == key_views(p@) {
            assert(key_views(d2[d.len() as int]@) == x);
        }
    }
    assert(dotted_set(d2) =~= dotted_set(d).insert(key_views(p@)));
}

/// A table's keys, read through its entries as mathematical objects.
pub(crate) proof fn lemma_view_keys(e: Seq<(Seq<char>, Value)>, k: Seq<char>)
    ensures
        tree_has(entries_view(e), k) == has_key(e, k),
        has_key(e, k) ==> tree_index(entries_view(e), k) == key_index(e, k),
{
    let v = entries_view(e);
    if has_key(e, k) {
        let w = choose|i: int| 0 <= i < e.len() && #[trigger] e[i].0 == k;
        assert(v[w].0 == k);
        lemma_key_index(e, k);
        let i = key_index(e, k);
        assert(v[i].0 == k);
        assert(forall|j: int| 0 <= j < i ==> #[trigger] v[j].0 == e[j].0);
        let i2 = tree_index(v, k);
        assert(exists|x: int|
            #![trigger v[x]]
            0 <= x < v.len() && v[x].0 == k && forall|j: int| 0 <= j < x ==> #[trigger] v[j].0 != k) by {
            assert(v[i].0 == k);
            assert forall|j: int| 0 <= j < i implies #[trigger] v[j].0 != k by {
                assert(v[j].0 == e[j].0);
            }
        }
        if i2 < i {
            assert(v[i2].0 == e[i2].0);
        } else if i2 > i {
            assert(v[i].0 != k);
        }
    } else {
        if tree_has(v, k) {
            let j = choose|j: int| 0 <= j < v.len() && #[trigger] v[j].0 == k;
            assert(e[j].0 == k);
        }
    }
}

/// Entries as mathematical objects, one more at the end.
pub(crate) proof fn lemma_entries_view_push(e: Seq<(Seq<char>, Value)>, x: (Seq<char>, Value))
    ensures
        entries_view(e.push(x)) == entries_view(e).push((x.0, tree_of(x.1))),
{
    assert(entries_view(e.push(x)) =~= entries_view(e).push((x.0, tree_of(x.1))));
}

/// Entries as mathematical objects, one changed.
pub(crate) proof fn lemma_entries_view_update(e: Seq<(Seq<char>, Value)>, i: int, x: (Seq<char>, Value))
    requires
        0 <= i < e.len(),
    ensures
        entries_view(e.update(i, x)) == entries_view(e).update(i, (x.0, tree_of(x.1))),
{
    assert(entries_view(e.update(i, x)) =~= entries_view(e).update(i, (x.0, tree_of(x.1))));
}

/// Inserts `value` under the dotted key `keys[k..]` into a table of an
/// inline table. `dotted` collects the tables this created, which later keys
/// in the same inline table may extend.
/// What setting the dotted key `keys[k..]` makes of the entries `acc`
/// below the existing key `keys[k]`: the table there, changed.
pub open spec fn descend_spec(
    acc: Seq<(Seq<char>, Tree)>,
    keys: Seq<Seq<char>>,
    k: int,
    w: Tree,
    dotted: Set<Seq<Seq<char>>>,
) -> Option<(Seq<(Seq<char>, Tree)>, Set<Seq<Seq<char>>>)> {
    let i = tree_index(acc, keys[k]);
    match acc[i].1 {
        Tree::Tab(sub0) => match dotted_insert(sub0, keys, k + 1, w, dotted) {
            Some((sub, d)) => Some((acc.update(i, (keys[k], Tree::Tab(sub))), d)),
            None => None,
        },
        _ => None,
    }
}

#[verifier::spinoff_prover]
fn insert_dotted(
    table: &mut Table,
    keys: &Vec<String>,
    k: usize,
    value: Value,
    dotted: &mut Vec<Vec<String>>,
) -> (r: Result<(), String>)
    requires
        k < keys.len(),
    ensures
        r is Ok <==> dotted_insert(entries_view(old(table)@), key_views(keys@), k as int, tree_of(value), dotted_set(old(dotted)@)) is Some,
        r is Ok ==> dotted_insert(entries_view(old(table)@), key_views(keys@), k as int, tree_of(value), dotted_set(old(dotted)@))
            == Some((entries_view(final(table)@), dotted_set(final(dotted)@))),
    decreases keys.len() - k, 1int,
{
    let ghost kv = key_views(keys@);
    let ghost acc = entries_view(table@);
    let ghost d0 = dotted_set(dotted@);
    let ghost w = tree_of(value);
    let key = keys[k].as_str();
    proof {
        assert(kv[k as int] == key@);
        lemma_view_keys(table@, key@);
    }
    if k + 1 == keys.len() {
        if table.contains_key(key) {
            let mut m = String::new();
            push_str(&mut m, "duplicate key `");
            let name = dotted_name(keys, keys.len());
            push_str(&mut m, name.as_str());
            push_str(&mut m, "`");
            return Err(m);
        }
        let ghost before = table@;
        table.insert_entry(keys[k].clone(), value);
        proof {
            lemma_entries_view_push(before, (key@, value));
        }
        return Ok(());
    }
    let prefix = key_prefix(keys, k + 1);
    if !table.contains_key(key) {
        let ghost before = table@;
        let nt = Table::new();
        let ghost ntg = nt;
        table.insert_entry(keys[k].clone(), Value::Table(nt));
        let ghost dbefore = dotted@;
        let ghost pg = prefix;
        dotted.push(prefix);
        proof {
            lemma_dotted_set_push(dbefore, pg);
            lemma_entries_view_push(before, (key@, Value::Table(ntg)));
            lemma_table_tree(ntg);
            assert(entries_view(ntg@) =~= Seq::<(Seq<char>, Tree)>::empty());
            let acc1 = entries_view(table@);
            assert(table@[before.len() as int].0 == key@);
            lemma_view_keys(table@, key@);
            lemma_key_index(table@, key@);
            assert(key_index(table@, key@) == before.len()) by {
                if key_index(table@, key@) < before.len() {
                    assert(before[key_index(table@, key@)].0 == key@);
                }
            }
            assert(acc1.update(before.len() as int, (key@, Tree::Tab(Seq::empty()))) =~= acc1);
            assert forall|sub: Seq<(Seq<char>, Tree)>| acc1.update(before.len() as int, (kv[k as int], Tree::Tab(sub)))
                == #[trigger] acc.push((kv[k as int], Tree::Tab(sub))) by {
                assert(acc1.update(before.len() as int, (kv[k as int], Tree::Tab(sub))) =~= acc.push((kv[k as int], Tree::Tab(sub))));
            }
        }
        let r = descend_dotted(table, keys, k, value, dotted);
        return r;
    } else if !contains_keys(dotted, &prefix) {
        let mut m = String::new();
        push_str(&mut m, "cannot add to `");
        let name = dotted_name(keys, k + 1);
        push_str(&mut m, name.as_str());
        push_str(&mut m, "` with a dotted key");
        proof {
            assert(!d0.contains(kv.take(k + 1))) by {
                if d0.contains(kv.take(k + 1)) {
                    let j = choose|j: int| 0 <= j < dotted@.len() && #[trigger] key_views(dotted@[j]@) == kv.take(k + 1);
                    assert(key_views(dotted@[j]@) == key_views(prefix@));
                }
            }
        }
        return Err(m);
    }
    proof {
        assert(d0.contains(kv.take(k + 1)));
    }
    descend_dotted(table, keys, k, value, dotted)
}

/// Sets the dotted key `keys[k..]` below the existing key `keys[k]`, which
/// must name a table.
/// Below an existing key whose value is the table `t0`: what the dotted
/// key makes of the entries is what it makes of `t0`'s, put in its place.
proof fn lemma_descend_table(mid: Seq<(Seq<char>, Value)>, i: int, t0: Table, t1: Table, kv: Seq<Seq<char>>, k: int, w: Tree, d: Set<Seq<Seq<char>>>)
    requires
        0 <= i < mid.len(),
        0 <= k < kv.len(),
        has_key(mid, kv[k]),
        key_index(mid, kv[k]) == i,
        mid[i].0 == kv[k],
        mid[i].1 == Value::Table(t0),
    ensures
        descend_spec(entries_view(mid), kv, k, w, d) == match dotted_insert(entries_view(t0@), kv, k + 1, w, d) {
            Some((sub, d2)) => Some((entries_view(mid).update(i, (kv[k], Tree::Tab(sub))), d2)),
            None => None,
        },
        entries_view(mid.update(i, (kv[k], Value::Table(t1)))) == entries_view(mid).update(i, (kv[k], Tree::Tab(entries_view(t1@)))),
{
    lemma_view_keys(mid, kv[k]);
    lemma_table_tree(t0);
    lemma_table_tree(t1);
    lemma_entries_view_update(mid, i, (kv[k], Value::Table(t1)));
}

/// Below an existing key whose value is not a table, a dotted key is
/// refused.
proof fn lemma_descend_other(mid: Seq<(Seq<char>, Value)>, i: int, kv: Seq<Seq<char>>, k: int, w: Tree, d: Set<Seq<Seq<char>>>)
    requires
        0 <= i < mid.len(),
        0 <= k < kv.len(),
        has_key(mid, kv[k]),
        key_index(mid, kv[k]) == i,
        !(mid[i].1 is Table),
    ensures
        descend_spec(entries_view(mid), kv, k, w, d) is None,
{
    lemma_view_keys(mid, kv[k]);
    let ev = entries_view(mid);
    assert(ev[i].1 == tree_of(mid[i].1));
    lemma_tree_kind(mid[i].1);
}

/// A value is a table exactly when its mathematical object is one.
proof fn lemma_tree_kind(v: Value)
    ensures
        (tree_of(v) is Tab) == (v is Table),
{
    match v {
        Value::Table(t) => {},
        _ => {},
    }
}

#[verifier::spinoff_prover]
fn descend_dotted(
    table: &mut Table,
    keys: &Vec<String>,
    k: usize,
    value: Value,
    dotted: &mut Vec<Vec<String>>,
) -> (r: Result<(), String>)
    requires
        k + 1 < keys.len(),
        has_key(old(table)@, keys@[k as int]@),
    ensures
        r is Ok <==> descend_spec(entries_view(old(table)@), key_views(keys@), k as int, tree_of(value), dotted_set(old(dotted)@)) is Some,
        r is Ok ==> descend_spec(entries_view(old(table)@), key_views(keys@), k as int, tree_of(value), dotted_set(old(dotted)@))
            == Some((entries_view(final(table)@), dotted_set(final(dotted)@))),
    decreases keys.len() - k, 0int,
{
    let ghost kv = key_views(keys@);
    let ghost mid = table@;
    let key = keys[k].as_str();
    assert(kv[k as int] == key@);
    let i = match table.index_of(key) {
        Some(i) => i,
        None => {
            return Err(String::new());
        },
    };
    let child = table.replace_at(i, Value::Boolean(false));
    match child {
        Value::Table(mut t) => {
            let ghost t0 = t;
            let r = insert_dotted(&mut t, keys, k + 1, value, dotted);
            let ghost t1 = t;
            table.replace_at(i, Value::Table(t));
            proof {
                lemma_descend_table(mid, i as int, t0, t1, kv, k as int, tree_of(value), dotted_set(old(dotted)@));
                assert(table@ =~= mid.update(i as int, (kv[k as int], Value::Table(t1))));
            }
            r
        },
        other => {
            proof {
                lemma_descend_other(mid, i as int, kv, k as int, tree_of(value), dotted_set(old(dotted)@));
            }
            table.replace_at(i, other);
            let mut m = String::from_str("`");
            let name = dotted_name(keys, k + 1);
            push_str(&mut m, name.as_str());
            push_str(&mut m, "` is not a table");
            Err(m)
        },
    }
}

} // verus!

verus! {

/// One step of a path into the document: a table key, or an index into an
/// array of tables.
pub(crate) enum Seg {
    Key(String),
    Index(usize),
}

/// A step of a path, as a mathematical value.
pub enum Step {
    Key(Seq<char>),
    Index(int),
}

/// The mathematical value of a step.
pub(crate) open spec fn step_of(s: Seg) -> Step {
    match s {
        Seg::Key(k) => Step::Key(k@),
        Seg::Index(i) => Step::Index(i as int),
    }
}

/// The mathematical value of a path.
pub(crate) open spec fn path_of(p: Seq<Seg>) -> Seq<Step> {
    p.map_values(|s: Seg| step_of(s))
}

/// The value reached from `v` by following the steps `p[k..]`.
pub open spec fn value_at(v: Value, p: Seq<Step>, k: int) -> Option<Value>
    decreases p.len() - k,
{
    if k < 0 || k >= p.len() {
        Some(v)
    } else {
        match p[k] {
            Step::Key(key) => match v {
                Value::Table(t) => match lookup(t@, key) {
                    Some(c) => value_at(c, p, k + 1),
                    None => None,
                },
                _ => None,
            },
            Step::Index(j) => match v {
                Value::Array(a) => if 0 <= j < a@.len() {
                    value_at(a@[j], p, k + 1)
                } else {
                    None
                },
                _ => None,
            },
        }
    }
}

/// The value at path `p` in the document `root`.
pub open spec fn path_value(root: Table, p: Seq<Step>) -> Option<Value> {
    if p.len() == 0 {
        None
    } else {
        match p[0] {
            Step::Key(key) => match lookup(root@, key) {
                Some(c) => value_at(c, p, 1),
                None => None,
            },
            Step::Index(_) => None,
        }
    }
}

/// A copy of a path.
fn copy_path(p: &Vec<Seg>) -> (q: Vec<Seg>)
    ensures
        path_of(q@) == path_of(p@),
{
    let mut q: Vec<Seg> = Vec::new();
    let mut i: usize = 0;
    while i < p.len()
        invariant
            i <= p.len(),
            q@.len() == i,
            forall|j: int| 0 <= j < i ==> #[trigger] step_of(q@[j]) == step_of(p@[j]),
        decreases p.len() - i,
    {
        let s = match &p[i] {
            Seg::Key(k) => Seg::Key(k.clone()),
            Seg::Index(n) => Seg::Index(*n),
        };
        q.push(s);
        i += 1;
    }
    assert(path_of(q@) =~= path_of(p@));
    q
}

/// Whether two paths are the same.
fn same_path(a: &Vec<Seg>, b: &Vec<Seg>) -> (r: bool)
    ensures
        r == (path_of(a@) == path_of(b@)),
{
    if a.len() != b.len() {
        assert(path_of(a@).len() != path_of(b@).len());
        return false;
    }
    let mut i: usize = 0;
    while i < a.len()
        invariant
            i <= a.len() == b.len(),
            forall|j: int| 0 <= j < i ==> #[trigger] step_of(a@[j]) == step_of(b@[j]),
        decreases a.len() - i,
    {
        let same = match &a[i] {
            Seg::Key(x) => match &b[i] {
                Seg::Key(y) => *x == *y,
                Seg::Index(_) => false,
            },
            Seg::Index(x) => match &b[i] {
                Seg::Key(_) => false,
                Seg::Index(y) => *x == *y,
            },
        };
        if !same {
            assert(path_of(a@)[i as int] != path_of(b@)[i as int]);
            return false;
        }
        i += 1;
    }
    assert(path_of(a@) =~= path_of(b@));
    true
}

/// Whether `set` holds the path `p`.
pub(crate) open spec fn holds_path(set: Seq<Vec<Seg>>, p: Seq<Step>) -> bool {
    exists|i: int| 0 <= i < set.len() && #[trigger] path_of(set[i]@) == p
}

/// Whether `set` holds `p`.
fn set_contains(set: &Vec<Vec<Seg>>, p: &Vec<Seg>) -> (r: bool)
    ensures
        r == holds_path(set@, path_of(p@)),
{
    let mut i: usize = 0;
    while i < set.len()
        invariant
            i <= set.len(),
            forall|j: int| 0 <= j < i ==> #[trigger] path_of(set@[j]@) != path_of(p@),
        decreases set.len() - i,
    {
        if same_path(&set[i], p) {
            assert(path_of(set@[i as int]@) == path_of(p@));
            return true;
        }
        i += 1;
    }
    false
}

/// Adds `p` to `set`.
fn set_insert(set: &mut Vec<Vec<Seg>>, p: &Vec<Seg>)
    ensures
        forall|q: Seq<Step>| #[trigger] holds_path(final(set)@, q) == (holds_path(old(set)@, q) || q == path_of(p@)),
{
    if !set_contains(set, p) {
        let ghost before = set@;
        set.push(copy_path(p));
        assert(path_of(set@[set@.len() - 1]@) == path_of(p@));
        assert forall|q: Seq<Step>| #[trigger] holds_path(set@, q) == (holds_path(before, q) || q == path_of(p@)) by {
            if holds_path(before, q) {
                let i = choose|i: int| 0 <= i < before.len() && #[trigger] path_of(before[i]@) == q;
                assert(path_of(set@[i]@) == q);
            }
            if holds_path(set@, q) {
                let i = choose|i: int| 0 <= i < set@.len() && #[trigger] path_of(set@[i]@) == q;
                if i < before.len() {
                    assert(path_of(before[i]@) == q);
                }
            }
        }
    }
}

/// Removes `p` from `set`; whether it was there.
fn set_remove(set: &mut Vec<Vec<Seg>>, p: &Vec<Seg>) -> (r: bool)
    ensures
        r == holds_path(old(set)@, path_of(p@)),
        forall|q: Seq<Step>| #[trigger] holds_path(final(set)@, q) == (holds_path(old(set)@, q) && q != path_of(p@)),
{
    let mut kept: Vec<Vec<Seg>> = Vec::new();
    let mut found = false;
    let mut i: usize = 0;
    while i < set.len()
        invariant
            i <= set.len(),
            set@ == old(set)@,
            found == exists|j: int| 0 <= j < i && #[trigger] path_of(set@[j]@) == path_of(p@),
            forall|q: Seq<Step>| #[trigger] holds_path(kept@, q) == (q != path_of(p@) && exists|j: int|
                0 <= j < i && #[trigger] path_of(set@[j]@) == q),
        decreases set.len() - i,
    {
        let ghost before = kept@;
        if same_path(&set[i], p) {
            found = true;
        } else {
            kept.push(copy_path(&set[i]));
        }
        proof {
            assert forall|q: Seq<Step>| #[trigger] holds_path(kept@, q) == (q != path_of(p@) && exists|j: int|
                0 <= j < i + 1 && #[trigger] path_of(set@[j]@) == q) by {
                if holds_path(kept@, q) {
                    let k = choose|k: int| 0 <= k < kept@.len() && #[trigger] path_of(kept@[k]@) == q;
                    if k < before.len() {
                        assert(path_of(before[k]@) == q);
                        assert(holds_path(before, q));
                    }
                }
                if q != path_of(p@) && exists|j: int| 0 <= j < i + 1 && #[trigger] path_of(set@[j]@) == q {
                    let j = choose|j: int| 0 <= j < i + 1 && #[trigger] path_of(set@[j]@) == q;
                    if j < i {
                        assert(holds_path(before, q));
                        let k = choose|k: int| 0 <= k < before.len() && #[trigger] path_of(before[k]@) == q;
                        assert(path_of(kept@[k]@) == q);
                    } else {
                        assert(path_of(kept@[kept@.len() - 1]@) == q);
                    }
                }
            }
        }
        i += 1;
    }
    *set = kept;
    found
}

/// The value at `path` in the document, if there is one.
fn lookup_path<'t>(root: &'t Table, path: &Vec<Seg>) -> (r: Option<&'t Value>)
    ensures
        r matches Some(v) ==> path_value(*root, path_of(path@)) == Some(*v),
        r is None ==> path_value(*root, path_of(path@)) is None,
{
    if path.len() == 0 {
        return None;
    }
    let mut cur: &Value = match &path[0] {
        Seg::Key(k) => match root.get(k.as_str()) {
            Some(v) => v,
            None => return None,
        },
        Seg::Index(_) => return None,
    };
    let mut i: usize = 1;
    while i < path.len()
        invariant
            1 <= i <= path.len(),
            path_value(*root, path_of(path@)) == value_at(*cur, path_of(path@), i as int),
        decreases path.len() - i,
    {
        assert(path_of(path@)[i as int] == step_of(path@[i as int]));
        let next: &Value = match &path[i] {
            Seg::Key(k) => match cur {
                Value::Table(t) => match t.get(k.as_str()) {
                    Some(v) => v,
                    None => return None,
                },
                _ => return None,
            },
            Seg::Index(j) => match cur {
                Value::Array(a) => {
                    if *j < a.len() {
                        &a[*j]
                    } else {
                        return None;
                    }
                },
                _ => return None,
            },
        };
        cur = next;
        i += 1;
    }
    Some(cur)
}

/// What sits at a path, from the point of view of the rules that decide
/// whether a definition is legal.
pub(crate) enum Slot {
    Missing,
    Table,
    Array(usize),
    Other,
}

/// What `apply_at` makes of `old`, the value at `path[..k]`: below it, the
/// value under the last key of `path` is set to `value` (`push` false), or
/// `value` is appended to the array at `path` (`push` true). Every table and
/// array on the way keeps its other entries; a path that leads nowhere
/// changes nothing.
pub(crate) open spec fn applied(old: Value, new: Value, path: Seq<Step>, k: int, value: Value, push: bool) -> bool
    decreases path.len() - k,
{
    if k >= path.len() {
        if push && old is Array {
            new is Array && new->Array_0@ == old->Array_0@.push(value)
        } else {
            new == old
        }
    } else {
        match path[k] {
            Step::Key(key) => match old {
                Value::Table(t) => if !push && k + 1 == path.len() {
                    new is Table && new->Table_0@ == inserted(t@, key, value)
                } else if has_key(t@, key) {
                    let i = key_index(t@, key);
                    &&& new is Table
                    &&& new->Table_0@ == t@.update(i, (key, new->Table_0@[i].1))
                    &&& applied(t@[i].1, new->Table_0@[i].1, path, k + 1, value, push)
                } else {
                    new == old
                },
                _ => new == old,
            },
            Step::Index(j) => match old {
                Value::Array(a) => if 0 <= j < a@.len() {
                    &&& new is Array
                    &&& new->Array_0@ == a@.update(j, new->Array_0@[j])
                    &&& applied(a@[j], new->Array_0@[j], path, k + 1, value, push)
                } else {
                    new == old
                },
                _ => new == old,
            },
        }
    }
}

/// Applying keeps a table a table.
proof fn lemma_applied_keeps_kind(old: Value, new: Value, path: Seq<Step>, k: int, value: Value, push: bool)
    requires
        applied(old, new, path, k, value, push),
        old is Table,
    ensures
        new is Table,
{
}

/// Following a path in two legs: first to step `n`, then on from there.
proof fn lemma_value_at_split(v: Value, q: Seq<Step>, k: int, n: int)
    requires
        0 <= k <= n <= q.len(),
    ensures
        value_at(v, q, k) == match value_at(v, q.take(n), k) {
            Some(w) => value_at(w, q, n),
            None => None,
        },
    decreases n - k,
{
    let p = q.take(n);
    if k < n {
        assert(p[k] == q[k]);
        match q[k] {
            Step::Key(key) => match v {
                Value::Table(t) => match lookup(t@, key) {
                    Some(c) => lemma_value_at_split(c, q, k + 1, n),
                    None => {},
                },
                _ => {},
            },
            Step::Index(j) => match v {
                Value::Array(a) => if 0 <= j < a@.len() {
                    lemma_value_at_split(a@[j], q, k + 1, n);
                },
                _ => {},
            },
        }
    }
}

/// From a document's root, a path is followed the same way as from any
/// value.
pub(crate) proof fn lemma_path_value_root(root: Table, p: Seq<Step>)
    requires
        p.len() > 0,
    ensures
        path_value(root, p) == value_at(Value::Table(root), p, 0),
{
}

/// After a value is set under the last key of `path`, in a table that was
/// there, that is what the path leads to.
proof fn lemma_applied_target(old: Value, new: Value, path: Seq<Step>, k: int, value: Value)
    requires
        applied(old, new, path, k, value, false),
        0 <= k < path.len(),
        path[path.len() - 1] is Key,
        value_at(old, path.take(path.len() - 1), k) matches Some(Value::Table(_)),
    ensures
        value_at(new, path, k) == Some(value),
    decreases path.len() - k,
{
    let p = path.take(path.len() - 1);
    if k == path.len() - 1 {
        let key = path[k]->Key_0;
        let t = old->Table_0;
        lemma_lookup_inserted(t@, key, value, key);
        assert(value_at(value, path, k + 1) == Some(value));
    } else {
        assert(p[k] == path[k]);
        match path[k] {
            Step::Key(key) => {
                let t = old->Table_0;
                lemma_key_index(t@, key);
                let i = key_index(t@, key);
                let nt = new->Table_0;
                lemma_lookup_updated(t@, i, nt@[i].1, key);
                lemma_applied_target(t@[i].1, nt@[i].1, path, k + 1, value);
            },
            Step::Index(j) => {
                let a = old->Array_0;
                lemma_applied_target(a@[j], new->Array_0@[j], path, k + 1, value);
            },
        }
    }
}

/// After a value is appended to the array at `path`, the path leads to that
/// array with the value on its end.
proof fn lemma_applied_push(old: Value, new: Value, path: Seq<Step>, k: int, value: Value)
    requires
        applied(old, new, path, k, value, true),
        0 <= k <= path.len(),
        value_at(old, path, k) matches Some(Value::Array(_)),
    ensures
        value_at(new, path, k) matches Some(Value::Array(b)) && b@ == value_at(old, path, k)->Some_0->Array_0@.push(value),
    decreases path.len() - k,
{
    if k < path.len() {
        match path[k] {
            Step::Key(key) => {
                let t = old->Table_0;
                lemma_key_index(t@, key);
                let i = key_index(t@, key);
                let nt = new->Table_0;
                lemma_lookup_updated(t@, i, nt@[i].1, key);
                lemma_applied_push(t@[i].1, nt@[i].1, path, k + 1, value);
            },
            Step::Index(j) => {
                let a = old->Array_0;
                lemma_applied_push(a@[j], new->Array_0@[j], path, k + 1, value);
            },
        }
    }
}

/// Whether `q` parts from `p`: at some step that both have, they differ.
pub open spec fn parts_from(q: Seq<Step>, p: Seq<Step>) -> bool {
    exists|m: int| 0 <= m < q.len() && m < p.len() && #[trigger] q[m] != p[m]
}

/// Whatever lies off the path that was changed is unchanged: a path that
/// parts from it at some step at or after `k` leads where it led before.
proof fn lemma_applied_frame(old: Value, new: Value, path: Seq<Step>, k: int, value: Value, push: bool, q: Seq<Step>)
    requires
        applied(old, new, path, k, value, push),
        0 <= k,
        exists|m: int| k <= m < q.len() && m < path.len() && #[trigger] q[m] != path[m],
    ensures
        value_at(new, q, k) == value_at(old, q, k),
    decreases path.len() - k,
{
    if q[k] != path[k] {
        match path[k] {
            Step::Key(key) => match old {
                Value::Table(t) => {
                    if !push && k + 1 == path.len() {
                        if q[k] is Key {
                            lemma_lookup_inserted(t@, key, value, q[k]->Key_0);
                        }
                    } else if has_key(t@, key) {
                        lemma_key_index(t@, key);
                        let i = key_index(t@, key);
                        if q[k] is Key {
                            lemma_lookup_updated(t@, i, new->Table_0@[i].1, q[k]->Key_0);
                        }
                    }
                },
                _ => {},
            },
            Step::Index(j) => {},
        }
    } else {
        match path[k] {
            Step::Key(key) => match old {
                Value::Table(t) => {
                    if has_key(t@, key) && !(!push && k + 1 == path.len()) {
                        lemma_key_index(t@, key);
                        let i = key_index(t@, key);
                        let nt = new->Table_0;
                        lemma_lookup_updated(t@, i, nt@[i].1, key);
                        lemma_applied_frame(t@[i].1, nt@[i].1, path, k + 1, value, push, q);
                    }
                },
                _ => {},
            },
            Step::Index(j) => match old {
                Value::Array(a) => if 0 <= j < a@.len() {
                    lemma_applied_frame(a@[j], new->Array_0@[j], path, k + 1, value, push, q);
                },
                _ => {},
            },
        }
    }
}

/// The tables and arrays on the way to the changed place stay what they
/// were: a table stays a table, an array an array.
proof fn lemma_applied_prefix(old: Value, new: Value, path: Seq<Step>, k: int, value: Value, push: bool, n: int)
    requires
        applied(old, new, path, k, value, push),
        0 <= k <= n < path.len(),
        value_at(old, path.take(n), k) is Some,
    ensures
        value_at(old, path.take(n), k) matches Some(Value::Table(_)) ==> value_at(new, path.take(n), k) matches Some(Value::Table(_)),
        value_at(old, path.take(n), k) matches Some(Value::Array(_)) ==> value_at(new, path.take(n), k) matches Some(Value::Array(_)),
    decreases n - k,
{
    let p = path.take(n);
    if k < n {
        assert(p[k] == path[k]);
        match path[k] {
            Step::Key(key) => match old {
                Value::Table(t) => {
                    lemma_key_index(t@, key);
                    let i = key_index(t@, key);
                    let nt = new->Table_0;
                    lemma_lookup_updated(t@, i, nt@[i].1, key);
                    lemma_applied_prefix(t@[i].1, nt@[i].1, path, k + 1, value, push, n);
                },
                _ => {},
            },
            Step::Index(j) => match old {
                Value::Array(a) => {
                    lemma_applied_prefix(a@[j], new->Array_0@[j], path, k + 1, value, push, n);
                },
                _ => {},
            },
        }
    }
}

/// The path that a key/value line writes to: the current table's path,
/// then the parts of the dotted key.
pub(crate) open spec fn full_path(current: Seq<Seg>, keys: Seq<String>) -> Seq<Step> {
    path_of(current) + keys.map_values(|k: String| Step::Key(k@))
}

/// Whether the path names a table of the document: the root itself when it
/// is empty.
pub open spec fn table_at(root: Table, p: Seq<Step>) -> bool {
    p.len() == 0 || path_value(root, p) matches Some(Value::Table(_))
}

/// One more key of a dotted key, added to the path.
proof fn lemma_full_path_take(current: Seq<Seg>, keys: Seq<String>, before: Seq<Seg>, after: Seq<Seg>, i: int)
    requires
        0 <= i < keys.len(),
        path_of(before) == full_path(current, keys).take(path_of(current).len() + i),
        after.len() == before.len() + 1,
        forall|j: int| 0 <= j < before.len() ==> #[trigger] after[j] == before[j],
        step_of(after[before.len() as int]) == Step::Key(keys[i]@),
    ensures
        path_of(after) == full_path(current, keys).take(path_of(current).len() + i + 1),
{
    let full = full_path(current, keys);
    let c = path_of(current).len() as int;
    assert(full.len() == c + keys.len());
    assert(full[c + i] == Step::Key(keys[i]@));
    assert(path_of(before).len() == before.len());
    assert(before.len() == c + i);
    assert forall|j: int| 0 <= j < c + i + 1 implies #[trigger] path_of(after)[j] == full.take(c + i + 1)[j] by {
        if j < c + i {
            assert(path_of(after)[j] == step_of(after[j]));
            assert(path_of(before)[j] == step_of(before[j]));
            assert(path_of(before)[j] == full.take(c + i)[j]);
        } else {
            assert(path_of(after)[j] == step_of(after[j]));
        }
    }
    assert(path_of(after) =~= full.take(c + i + 1));
}

/// The prefixes of a path that leads somewhere lead somewhere too.
proof fn lemma_prefix_exists(root: Table, full: Seq<Step>, m: int, n: int)
    requires
        0 < m <= n <= full.len(),
    ensures
        path_value(root, full.take(n)) is Some ==> path_value(root, full.take(m)) is Some,
{
    let p = full.take(n);
    lemma_path_value_root(root, p);
    lemma_path_value_root(root, full.take(m));
    lemma_value_at_split(Value::Table(root), p, 0, m);
    assert(p.take(m) =~= full.take(m));
}

/// A path that leads nowhere leads nowhere once extended.
proof fn lemma_missing_extends(root: Table, q: Seq<Step>, n: int)
    requires
        0 < n <= q.len(),
        path_value(root, q.take(n)) is None,
    ensures
        path_value(root, q) is None,
{
    lemma_path_value_root(root, q);
    lemma_path_value_root(root, q.take(n));
    lemma_value_at_split(Value::Table(root), q, 0, n);
}

/// Setting a value where nothing was: a longer path through it leads into
/// the new value, or nowhere.
proof fn lemma_applied_extension(old: Value, new: Value, path: Seq<Step>, k: int, value: Value, q: Seq<Step>)
    requires
        applied(old, new, path, k, value, false),
        0 <= k < path.len(),
        path.len() < q.len(),
        q.take(path.len() as int) == path,
        value_at(old, path, k) is None,
    ensures
        value_at(new, q, k) is None || value_at(new, q, k) == value_at(value, q, path.len() as int),
    decreases path.len() - k,
{
    assert(q[k] == path[k]);
    lemma_value_at_split(old, q, k, path.len() as int);
    lemma_value_at_split(new, q, k, path.len() as int);
    match path[k] {
        Step::Key(key) => match old {
            Value::Table(t) => {
                if k + 1 == path.len() {
                    lemma_lookup_inserted(t@, key, value, key);
                } else if has_key(t@, key) {
                    lemma_key_index(t@, key);
                    let i = key_index(t@, key);
                    let nt = new->Table_0;
                    lemma_lookup_updated(t@, i, nt@[i].1, key);
                    lemma_applied_extension(t@[i].1, nt@[i].1, path, k + 1, value, q);
                }
            },
            _ => {},
        },
        Step::Index(j) => match old {
            Value::Array(a) => if 0 <= j < a@.len() {
                if k + 1 < path.len() {
                    lemma_applied_extension(a@[j], new->Array_0@[j], path, k + 1, value, q);
                }
            },
            _ => {},
        },
    }
}

/// An empty table holds nothing below it.
proof fn lemma_empty_table_below(t: Table, q: Seq<Step>, n: int)
    requires
        t@.len() == 0,
        0 <= n < q.len(),
    ensures
        value_at(Value::Table(t), q, n) is None,
{
    if q[n] is Key {
        assert(!has_key(t@, q[n]->Key_0));
    }
}

/// A table created where nothing was changes nothing off its path, and
/// nothing below it either: it is empty.
proof fn lemma_grow_missing_at(before: Table, after: Table, full: Seq<Step>, n: int, nt: Table, q: Seq<Step>)
    requires
        applied(Value::Table(before), Value::Table(after), full.take(n), 0, Value::Table(nt), false),
        nt@.len() == 0,
        0 < n < full.len(),
        path_value(before, full.take(n)) is None,
        parts_from(q, full),
    ensures
        path_value(after, q) == path_value(before, q),
{
    let p = full.take(n);
    lemma_path_value_root(before, q);
    lemma_path_value_root(after, q);
    if exists|m: int| 0 <= m < q.len() && m < p.len() && #[trigger] q[m] != p[m] {
        lemma_applied_frame(Value::Table(before), Value::Table(after), p, 0, Value::Table(nt), false, q);
    } else {
        let m0 = choose|m: int| 0 <= m < q.len() && m < full.len() && #[trigger] q[m] != full[m];
        assert(m0 >= n) by {
            if m0 < n {
                assert(q[m0] != p[m0]);
            }
        }
        assert(q.take(n) =~= p) by {
            assert forall|j: int| 0 <= j < n implies q[j] == p[j] by {
                if q[j] != p[j] {
                    assert(q[j] != p[j]);
                }
            }
        }
        lemma_path_value_root(before, p);
        lemma_missing_extends(before, q, n);
        lemma_applied_extension(Value::Table(before), Value::Table(after), p, 0, Value::Table(nt), q);
        lemma_empty_table_below(nt, q, n);
    }
}

/// A dotted key creating the missing table at `full[..n]`: paths that part
/// from `full` still lead where they led at first, and the new table is
/// there when the current table was.
proof fn lemma_grow_missing(before: Table, after: Table, full: Seq<Step>, n: int, nt: Table, root0: Table, c: int)
    requires
        applied(Value::Table(before), Value::Table(after), full.take(n), 0, Value::Table(nt), false),
        nt@.len() == 0,
        0 <= c < n < full.len(),
        full[n - 1] is Key,
        path_value(before, full.take(n)) is None,
        forall|q: Seq<Step>| parts_from(q, full) ==> #[trigger] path_value(before, q) == path_value(root0, q),
        table_at(root0, full.take(c)) ==> table_at(before, full.take(n - 1)),
    ensures
        forall|q: Seq<Step>| parts_from(q, full) ==> #[trigger] path_value(after, q) == path_value(root0, q),
        table_at(root0, full.take(c)) ==> table_at(after, full.take(n)),
{
    let p = full.take(n);
    if table_at(root0, full.take(c)) {
        assert(p.take(n - 1) =~= full.take(n - 1));
        lemma_path_value_root(after, p);
        if n - 1 > 0 {
            lemma_path_value_root(before, full.take(n - 1));
        }
        assert(p[n - 1] is Key);
        lemma_applied_target(Value::Table(before), Value::Table(after), p, 0, Value::Table(nt));
    }
    assert forall|q: Seq<Step>| parts_from(q, full) implies #[trigger] path_value(after, q) == path_value(root0, q) by {
        lemma_grow_missing_at(before, after, full, n, nt, q);
    }
}

/// The value of a key/value line stored at its path: paths that part from
/// it still lead where they led at first, and the path leads to the value
/// when the current table was there.
proof fn lemma_stored(before: Table, after: Table, full: Seq<Step>, value: Value, root0: Table, c: int, count: int)
    requires
        applied(Value::Table(before), Value::Table(after), full, 0, value, false),
        0 <= c,
        full.len() == c + count,
        forall|q: Seq<Step>| parts_from(q, full) ==> #[trigger] path_value(before, q) == path_value(root0, q),
        count > 0 ==> full[full.len() - 1] is Key,
        count > 0 && table_at(root0, full.take(c)) ==> table_at(before, full.take(c + count - 1)),
    ensures
        forall|q: Seq<Step>| parts_from(q, full) ==> #[trigger] path_value(after, q) == path_value(root0, q),
        count > 0 && table_at(root0, full.take(c)) ==> path_value(after, full) == Some(value),
{
    if count > 0 && table_at(root0, full.take(c)) {
        lemma_path_value_root(after, full);
        if c + count - 1 > 0 {
            lemma_path_value_root(before, full.take(c + count - 1));
        }
        lemma_applied_target(Value::Table(before), Value::Table(after), full, 0, value);
    }
    assert forall|q: Seq<Step>| parts_from(q, full) implies #[trigger] path_value(after, q) == path_value(root0, q) by {
        lemma_path_value_root(before, q);
        lemma_path_value_root(after, q);
        lemma_applied_frame(Value::Table(before), Value::Table(after), full, 0, value, false, q);
    }
}

/// The keys along a path, in order, its index steps left out.
pub open spec fn keys_in(p: Seq<Step>) -> Seq<Seq<char>>
    decreases p.len(),
{
    if p.len() == 0 {
        Seq::empty()
    } else {
        match p.last() {
            Step::Key(k) => keys_in(p.drop_last()).push(k),
            Step::Index(_) => keys_in(p.drop_last()),
        }
    }
}

/// Whether every array that `[[header]]` lines declared is there, holds at
/// least one element, and holds only tables.
pub(crate) open spec fn arrays_hold_tables(root: Table, arrays: Seq<Vec<Seg>>) -> bool {
    forall|p: Seq<Step>|
        #[trigger] holds_path(arrays, p) ==> (path_value(root, p) matches Some(Value::Array(a)) && a@.len() > 0
            && forall|j: int| 0 <= j < a@.len() ==> (#[trigger] a@[j]) is Table)
}

/// Following one step more.
proof fn lemma_one_more_step(root: Table, p: Seq<Step>, s: Step)
    requires
        p.len() > 0,
    ensures
        path_value(root, p.push(s)) == match path_value(root, p) {
            Some(w) => value_at(w, p.push(s), p.len() as int),
            None => None,
        },
{
    let q = p.push(s);
    lemma_path_value_root(root, p);
    lemma_path_value_root(root, q);
    lemma_value_at_split(Value::Table(root), q, 0, p.len() as int);
    assert(q.take(p.len() as int) =~= p);
}

/// A header creating the missing value `nv` at `path`: every path that does
/// not start `ext`, a path through the new value, still leads where it led
/// at first, given that nothing lies below `nv` off `ext`.
proof fn lemma_create_frame(before: Table, after: Table, path: Seq<Step>, nv: Value, ext: Seq<Step>, root0: Table, q: Seq<Step>)
    requires
        applied(Value::Table(before), Value::Table(after), path, 0, nv, false),
        path.len() > 0,
        path.is_prefix_of(ext),
        path_value(before, path) is None,
        !q.is_prefix_of(ext),
        forall|r: Seq<Step>| !r.is_prefix_of(path.drop_last()) ==> #[trigger] path_value(before, r) == path_value(root0, r),
        forall|r: Seq<Step>|
            r.len() > path.len() && r.take(path.len() as int) == path && !r.is_prefix_of(ext)
                ==> #[trigger] value_at(nv, r, path.len() as int) is None,
    ensures
        path_value(after, q) == path_value(root0, q),
{
    let pb = path.drop_last();
    assert(path =~= pb.push(path.last()));
    if q.len() == 0 {
        assert(q.is_prefix_of(ext));
    }
    lemma_path_value_root(before, q);
    lemma_path_value_root(after, q);
    if q.is_prefix_of(pb) {
        assert(q.is_prefix_of(ext)) by {
            assert(q =~= ext.subrange(0, q.len() as int));
        }
    }
    if exists|m: int| 0 <= m < q.len() && m < path.len() && #[trigger] q[m] != path[m] {
        lemma_applied_frame(Value::Table(before), Value::Table(after), path, 0, nv, false, q);
    } else {
        assert(q.len() > path.len()) by {
            if q.len() <= path.len() {
                assert(q =~= ext.subrange(0, q.len() as int)) by {
                    assert forall|j: int| 0 <= j < q.len() implies q[j] == ext[j] by {
                        assert(q[j] == path[j]);
                    }
                }
            }
        }
        assert(q.take(path.len() as int) =~= path) by {
            assert forall|j: int| 0 <= j < path.len() implies q[j] == path[j] by {
                if q[j] != path[j] {
                    assert(q[j] != path[j]);
                }
            }
        }
        lemma_missing_extends(before, q, path.len() as int);
        lemma_applied_extension(Value::Table(before), Value::Table(after), path, 0, nv, q);
    }
}

/// An empty table has nothing below it.
proof fn lemma_nothing_below_empty(nt: Table, path: Seq<Step>)
    requires
        nt@.len() == 0,
    ensures
        forall|r: Seq<Step>|
            r.len() > path.len() && r.take(path.len() as int) == path && !r.is_prefix_of(path)
                ==> #[trigger] value_at(Value::Table(nt), r, path.len() as int) is None,
{
    assert forall|r: Seq<Step>|
        r.len() > path.len() && r.take(path.len() as int) == path && !r.is_prefix_of(path)
            implies #[trigger] value_at(Value::Table(nt), r, path.len() as int) is None by {
        lemma_empty_table_below(nt, r, path.len() as int);
    }
}

/// A new array holding one empty table has nothing below it but that
/// table.
proof fn lemma_nothing_below_array(nv: Value, nt: Table, path: Seq<Step>)
    requires
        nt@.len() == 0,
        nv is Array,
        nv->Array_0@ == seq![Value::Table(nt)],
    ensures
        forall|r: Seq<Step>|
            r.len() > path.len() && r.take(path.len() as int) == path && !r.is_prefix_of(path.push(Step::Index(0)))
                ==> #[trigger] value_at(nv, r, path.len() as int) is None,
{
    assert forall|r: Seq<Step>|
        r.len() > path.len() && r.take(path.len() as int) == path && !r.is_prefix_of(path.push(Step::Index(0)))
            implies #[trigger] value_at(nv, r, path.len() as int) is None by {
        let n = path.len() as int;
        if r[n] == Step::Index(0) {
            assert(r.len() > n + 1) by {
                if r.len() == n + 1 {
                    assert(r =~= path.push(Step::Index(0))) by {
                        assert forall|j: int| 0 <= j < n implies r[j] == path[j] by {
                            assert(r.take(n)[j] == r[j]);
                        }
                    }
                }
            }
            lemma_empty_table_below(nt, r, n + 1);
        }
    }
}

/// The path of a path with a segment added.
proof fn lemma_path_push(p: Seq<Seg>, s: Seg)
    ensures
        path_of(p.push(s)) == path_of(p).push(step_of(s)),
{
    assert(path_of(p.push(s)) =~= path_of(p).push(step_of(s)));
}

/// A path that starts `p` starts any longer path too.
proof fn lemma_prefix_push(q: Seq<Step>, p: Seq<Step>, s: Step)
    requires
        q.is_prefix_of(p),
    ensures
        q.is_prefix_of(p.push(s)),
{
    assert(q =~= p.push(s).subrange(0, q.len() as int));
}

/// The keys along a path with one step added.
proof fn lemma_keys_in_push(p: Seq<Step>, s: Step)
    ensures
        keys_in(p.push(s)) == match s {
            Step::Key(k) => keys_in(p).push(k),
            Step::Index(_) => keys_in(p),
        },
{
    assert(p.push(s).drop_last() =~= p);
}

/// Appending an empty table to the array at `path` changes nothing that does
/// not start `ext`, the path to the new element.
#[verifier::spinoff_prover]
#[verifier::rlimit(40)]
proof fn lemma_push_frame(before: Table, after: Table, path: Seq<Step>, nt: Table, root0: Table, q: Seq<Step>)
    requires
        applied(Value::Table(before), Value::Table(after), path, 0, Value::Table(nt), true),
        path.len() > 0,
        path_value(before, path) matches Some(Value::Array(_)),
        nt@.len() == 0,
        !q.is_prefix_of(path.push(Step::Index(path_value(before, path)->Some_0->Array_0@.len() as int))),
        forall|r: Seq<Step>| !r.is_prefix_of(path.drop_last()) ==> #[trigger] path_value(before, r) == path_value(root0, r),
    ensures
        path_value(after, q) == path_value(root0, q),
{
    let a = path_value(before, path)->Some_0->Array_0;
    let n = a@.len() as int;
    let ext = path.push(Step::Index(n));
    let pb = path.drop_last();
    assert(path =~= pb.push(path.last()));
    if q.len() == 0 {
        assert(q.is_prefix_of(ext));
    }
    lemma_path_value_root(before, q);
    lemma_path_value_root(after, q);
    lemma_path_value_root(before, path);
    lemma_path_value_root(after, path);
    if q.is_prefix_of(pb) {
        assert(q.is_prefix_of(ext)) by {
            assert(q =~= ext.subrange(0, q.len() as int));
        }
    }
    if exists|m: int| 0 <= m < q.len() && m < path.len() && #[trigger] q[m] != path[m] {
        lemma_applied_frame(Value::Table(before), Value::Table(after), path, 0, Value::Table(nt), true, q);
        assert(!q.is_prefix_of(pb)) by {
            if q.is_prefix_of(pb) {
                let m = choose|m: int| 0 <= m < q.len() && m < path.len() && #[trigger] q[m] != path[m];
                assert(q[m] == pb[m]);
            }
        }
    } else {
        assert(q.len() > path.len()) by {
            if q.len() <= path.len() {
                assert(q =~= ext.subrange(0, q.len() as int)) by {
                    assert forall|j: int| 0 <= j < q.len() implies q[j] == ext[j] by {
                        assert(q[j] == path[j]);
                    }
                }
            }
        }
        assert(q.take(path.len() as int) =~= path) by {
            assert forall|j: int| 0 <= j < path.len() implies q[j] == path[j] by {
                if q[j] != path[j] {
                    assert(q[j] != path[j]);
                }
            }
        }
        assert(!q.is_prefix_of(pb));
        lemma_applied_push(Value::Table(before), Value::Table(after), path, 0, Value::Table(nt));
        let b = value_at(Value::Table(after), path, 0)->Some_0->Array_0;
        lemma_value_at_split(Value::Table(before), q, 0, path.len() as int);
        lemma_value_at_split(Value::Table(after), q, 0, path.len() as int);
        let k = path.len() as int;
        if q[k] is Index {
            let j = q[k]->Index_0;
            if 0 <= j < n {
                assert(b@[j] == a@[j]);
            } else if j == n {
                assert(q.len() > k + 1) by {
                    if q.len() == k + 1 {
                        assert(q =~= ext) by {
                            assert forall|m: int| 0 <= m < k implies q[m] == ext[m] by {
                                assert(q.take(k)[m] == q[m]);
                            }
                        }
                    }
                }
                assert(b@[n] == Value::Table(nt));
                lemma_empty_table_below(nt, q, k + 1);
            }
        }
    }
}

/// A path one step longer than `p` does not start `p`.
proof fn lemma_not_longer_prefix(pk: Seq<Step>, p: Seq<Step>)
    requires
        pk.len() > p.len(),
    ensures
        !pk.is_prefix_of(p),
{
}

/// The frozen paths a header has passed so far, one key further.
proof fn lemma_frozen_step(pb: Seq<Step>, s: Step, frozen: Seq<Vec<Seg>>)
    requires
        s is Key,
        !holds_path(frozen, pb.push(s)),
        forall|n: int| 0 < n <= pb.len() && pb[n - 1] is Key ==> !holds_path(frozen, #[trigger] pb.take(n)),
    ensures
        forall|n: int|
            0 < n <= pb.push(s).len() && pb.push(s)[n - 1] is Key ==> !holds_path(frozen, #[trigger] pb.push(s).take(n)),
{
    let pk = pb.push(s);
    assert forall|n: int| 0 < n <= pk.len() && pk[n - 1] is Key implies !holds_path(frozen, #[trigger] pk.take(n)) by {
        if n <= pb.len() {
            assert(pk.take(n) =~= pb.take(n));
            assert(pk[n - 1] == pb[n - 1]);
        } else {
            assert(pk.take(n) =~= pk);
        }
    }
}

/// The frozen paths a header has passed so far, one index further.
proof fn lemma_frozen_index(pk: Seq<Step>, s: Step, frozen: Seq<Vec<Seg>>)
    requires
        s is Index,
        forall|n: int| 0 < n <= pk.len() && pk[n - 1] is Key ==> !holds_path(frozen, #[trigger] pk.take(n)),
    ensures
        forall|n: int|
            0 < n <= pk.push(s).len() && pk.push(s)[n - 1] is Key ==> !holds_path(frozen, #[trigger] pk.push(s).take(n)),
{
    let pi = pk.push(s);
    assert forall|n: int| 0 < n <= pi.len() && pi[n - 1] is Key implies !holds_path(frozen, #[trigger] pi.take(n)) by {
        if n <= pk.len() {
            assert(pi.take(n) =~= pk.take(n));
            assert(pi[n - 1] == pk[n - 1]);
        }
    }
}

/// What starts `p` starts `p` with a step added.
proof fn lemma_implicit_grow(set: Seq<Vec<Seg>>, p: Seq<Step>, s: Step, set0: Seq<Vec<Seg>>)
    requires
        forall|q: Seq<Step>| #[trigger] holds_path(set, q) ==> holds_path(set0, q) || q.is_prefix_of(p),
    ensures
        forall|q: Seq<Step>| #[trigger] holds_path(set, q) ==> holds_path(set0, q) || q.is_prefix_of(p.push(s)),
{
    assert forall|q: Seq<Step>| #[trigger] holds_path(set, q) implies holds_path(set0, q) || q.is_prefix_of(p.push(s)) by {
        if q.is_prefix_of(p) {
            lemma_prefix_push(q, p, s);
        }
    }
}

/// What does not start `p` with a step added does not start `p`.
proof fn lemma_frame_grow(root: Table, root0: Table, p: Seq<Step>, s: Step)
    requires
        forall|q: Seq<Step>| !q.is_prefix_of(p) ==> #[trigger] path_value(root, q) == path_value(root0, q),
    ensures
        forall|q: Seq<Step>| !q.is_prefix_of(p.push(s)) ==> #[trigger] path_value(root, q) == path_value(root0, q),
{
    assert forall|q: Seq<Step>| !q.is_prefix_of(p.push(s)) implies #[trigger] path_value(root, q) == path_value(root0, q) by {
        if q.is_prefix_of(p) {
            lemma_prefix_push(q, p, s);
        }
    }
}

/// A value set under the last key of `path`, in the table that was there, is
/// what the path leads to.
proof fn lemma_created_here(before: Table, after: Table, path: Seq<Step>, nv: Value)
    requires
        applied(Value::Table(before), Value::Table(after), path, 0, nv, false),
        path.len() > 0,
        path.last() is Key,
        table_at(before, path.drop_last()),
    ensures
        path_value(after, path) == Some(nv),
        nv is Table ==> table_at(after, path),
{
    let pb = path.drop_last();
    assert(path.take(path.len() - 1) =~= pb);
    if pb.len() > 0 {
        lemma_path_value_root(before, pb);
    }
    lemma_applied_target(Value::Table(before), Value::Table(after), path, 0, nv);
    lemma_path_value_root(after, path);
}

/// Following an index into the last element of an array that a
/// `[[header]]` declared leads to a table.
proof fn lemma_into_last_element(root: Table, root0: Table, arrays: Seq<Vec<Seg>>, pk: Seq<Step>, len: int)
    requires
        arrays_hold_tables(root0, arrays),
        holds_path(arrays, pk),
        pk.len() > 0,
        path_value(root, pk) == path_value(root0, pk),
        path_value(root, pk) matches Some(Value::Array(a)) && a@.len() == len,
        len > 0,
    ensures
        table_at(root, pk.push(Step::Index(len - 1))),
{
    let a = path_value(root, pk)->Some_0->Array_0;
    assert(a@[len - 1] is Table);
    lemma_one_more_step(root, pk, Step::Index(len - 1));
    let q = pk.push(Step::Index(len - 1));
    assert(q[pk.len() as int] == Step::Index(len - 1));
    assert(value_at(a@[len - 1], q, pk.len() as int + 1) == Some(a@[len - 1]));
}

/// A header's own table was not defined before: there was nothing at its
/// path, or only a table that an earlier header created on its way deeper.
pub(crate) open spec fn no_earlier_table(root: Table, implicit: Seq<Vec<Seg>>, p: Seq<Step>) -> bool {
    &&& p.len() > 0
    &&& p.last() is Key
    &&& (path_value(root, p) is None || (path_value(root, p) matches Some(Value::Table(_)) && holds_path(implicit, p)))
}

/// An `[[array]]` header's new element: the path ends at index `n` of an
/// array that was not there (and `n` is 0), or that an earlier `[[array]]`
/// header declared with `n` elements.
pub(crate) open spec fn appended_array(root: Table, arrays: Seq<Vec<Seg>>, p: Seq<Step>) -> bool {
    &&& p.len() > 1
    &&& p.last() is Index
    &&& ((path_value(root, p.drop_last()) is None && p.last()->Index_0 == 0) || (path_value(root, p.drop_last()) matches Some(
        Value::Array(b),
    ) && b@.len() == p.last()->Index_0 && holds_path(arrays, p.drop_last())))
}

/// After a header, its path names a table; after an `[[array]]` header, a
/// new empty table at the end of the array.
pub(crate) open spec fn opened(root: Table, p: Seq<Step>, is_array: bool) -> bool {
    &&& table_at(root, p)
    &&& is_array ==> {
        &&& p.len() > 1
        &&& p.last() is Index
        &&& path_value(root, p.drop_last()) matches Some(Value::Array(a))
        &&& a@.len() == p.last()->Index_0 + 1
        &&& path_value(root, p) matches Some(Value::Table(t))
        &&& t@.len() == 0
    }
}

/// Below `v`, the value at `path[..k]`: inserts `value` under the last key
/// of `path` into the table it names (`push` false), or appends `value` to
/// the array at `path` (`push` true). A path that leads nowhere changes
/// nothing.
fn apply_at(v: &mut Value, path: &Vec<Seg>, k: usize, value: Value, push: bool)
    requires
        k <= path.len(),
    ensures
        applied(*old(v), *final(v), path_of(path@), k as int, value, push),
    decreases path.len() - k,
{
    let ghost p = path_of(path@);
    if k >= path.len() {
        if push {
            match v {
                Value::Array(a) => {
                    a.push(value);
                },
                _ => {},
            }
        }
        return;
    }
    assert(p[k as int] == step_of(path@[k as int]));
    match &path[k] {
        Seg::Key(key) => match v {
            Value::Table(t) => {
                if !push && k + 1 == path.len() {
                    t.insert_entry(key.clone(), value);
                } else {
                    match t.index_of(key.as_str()) {
                        Some(i) => {
                            let ghost before = t@;
                            let mut child = t.replace_at(i, Value::Boolean(false));
                            let ghost old_child = child;
                            apply_at(&mut child, path, k + 1, value, push);
                            let ghost new_child = child;
                            t.replace_at(i, child);
                            assert(t@ =~= before.update(i as int, (key@, new_child)));
                        },
                        None => {},
                    }
                }
            },
            _ => {},
        },
        Seg::Index(j) => match v {
            Value::Array(a) => {
                if *j < a.len() {
                    let ghost before = a@;
                    let mut child = a.remove(*j);
                    apply_at(&mut child, path, k + 1, value, push);
                    let ghost new_child = child;
                    a.insert(*j, child);
                    assert(a@ =~= before.update(*j as int, new_child));
                }
            },
            _ => {},
        },
    }
}

/// How a step of a path is spelled in a plain dotted path: a key as
/// itself, an array index as its decimal digits.
pub(crate) open spec fn raw_part(s: Seg) -> Seq<char> {
    match s {
        Seg::Key(k) => k@,
        Seg::Index(n) => dec_digits(n as nat),
    }
}

/// The steps of a path, each spelled as in a plain dotted path.
pub(crate) open spec fn raw_parts(p: Seq<Seg>) -> Seq<Seq<char>> {
    p.map_values(|s: Seg| raw_part(s))
}

/// A path as plain dotted segments: its steps joined with `.`.
pub(crate) open spec fn raw_path(p: Seq<Seg>) -> Seq<char> {
    join(raw_parts(p), seq!['.'])
}

/// The first `n` steps of a path as a document would write them: keys as
/// written keys joined with `.`, array indexes in brackets.
pub(crate) open spec fn rendered(p: Seq<Seg>, n: int) -> Seq<char>
    decreases n,
{
    if n <= 0 || n > p.len() {
        Seq::empty()
    } else {
        rendered(p, n - 1) + match p[n - 1] {
            Seg::Key(k) => (if n > 1 { seq!['.'] } else { Seq::empty() }) + key_text(k@),
            Seg::Index(m) => seq!['['] + dec_digits(m as nat) + seq![']'],
        }
    }
}

/// Renders a path as plain dotted segments, the way an error from mapping a
/// document onto a type spells one.
pub(crate) fn render_raw(path: &Vec<Seg>) -> (out: String)
    ensures
        out@ == raw_path(path@),
{
    let ghost parts = raw_parts(path@);
    let mut out = String::new();
    let mut i: usize = 0;
    assert(parts.take(0) =~= Seq::<Seq<char>>::empty());
    while i < path.len()
        invariant
            i <= path.len(),
            parts == raw_parts(path@),
            out@ == join(parts.take(i as int), seq!['.']),
        decreases path.len() - i,
    {
        proof {
            assert(parts.take(i + 1).drop_last() =~= parts.take(i as int));
        }
        let ghost before = out@;
        if i > 0 {
            push_char(&mut out, '.');
        }
        let ghost mid = out@;
        match &path[i] {
            Seg::Key(key) => push_str(&mut out, key.as_str()),
            Seg::Index(n) => push_decimal(&mut out, *n as u64),
        }
        proof {
            assert(out@ =~= mid + parts[i as int]);
            if i == 0 {
                assert(out@ =~= parts.take(1)[0]);
            } else {
                assert(out@ =~= join(parts.take(i as int), seq!['.']) + seq!['.'] + parts.take(i + 1).last());
            }
        }
        i += 1;
    }
    assert(parts.take(path@.len() as int) =~= parts);
    out
}

/// Renders a path the way it would be written in a document, for error
/// messages.
pub(crate) fn render(path: &Vec<Seg>) -> (out: String)
    ensures
        out@ == rendered(path@, path@.len() as int),
{
    let mut out = String::new();
    let mut i: usize = 0;
    while i < path.len()
        invariant
            i <= path.len(),
            out@ == rendered(path@, i as int),
        decreases path.len() - i,
    {
        match &path[i] {
            Seg::Key(key) => {
                if i > 0 {
                    push_char(&mut out, '.');
                }
                let k = key_to_string(key.as_str());
                push_str(&mut out, k.as_str());
            },
            Seg::Index(n) => {
                push_char(&mut out, '[');
                push_decimal(&mut out, *n as u64);
                push_char(&mut out, ']');
            },
        }
        proof {
            assert(out@ =~= rendered(path@, i + 1));
        }
        i += 1;
    }
    out
}

/// `prefix` followed by the rendered path and `suffix`.
fn path_message(prefix: &str, path: &Vec<Seg>, suffix: &str) -> (m: String)
    ensures
        m@ == prefix@ + rendered(path@, path@.len() as int) + suffix@,
{
    let mut m = String::new();
    push_str(&mut m, prefix);
    let r = render(path);
    push_str(&mut m, r.as_str());
    push_str(&mut m, suffix);
    assert(m@ =~= prefix@ + rendered(path@, path@.len() as int) + suffix@);
    m
}

/// Whether `q[k..]`, followed from `v` by table keys alone, leads to a
/// table: `q` names `v` itself or a table nested in it through tables.
pub open spec fn table_within(v: Value, q: Seq<Step>, k: int) -> bool
    decreases q.len() - k,
{
    if k < 0 {
        false
    } else if k >= q.len() {
        v is Table
    } else {
        match q[k] {
            Step::Key(key) => match v {
                Value::Table(t) => match lookup(t@, key) {
                    Some(c) => table_within(c, q, k + 1),
                    None => false,
                },
                _ => false,
            },
            Step::Index(_) => false,
        }
    }
}

/// Nothing lies below an empty table.
proof fn lemma_fresh_below(root: Table, full: Seq<Step>, n: int, t: Table)
    requires
        0 < n < full.len(),
        path_value(root, full.take(n)) == Some(Value::Table(t)),
        t@.len() == 0,
    ensures
        path_value(root, full.take(n + 1)) is None,
{
    let p = full.take(n + 1);
    lemma_path_value_root(root, p);
    lemma_path_value_root(root, full.take(n));
    lemma_value_at_split(Value::Table(root), p, 0, n);
    assert(p.take(n) =~= full.take(n));
    match p[n] {
        Step::Key(key) => {
            assert(!has_key(t@, key));
        },
        Step::Index(_) => {},
    }
}

/// While a dotted key is walked, a part that the document did not have is
/// not there yet either: either nothing was created on the way, or the part
/// before it is a table just created, still empty.
proof fn lemma_still_missing(root0: Table, root: Table, full: Seq<Step>, m: int, fresh: bool)
    requires
        0 <= m < full.len(),
        !fresh ==> root == root0,
        path_value(root0, full.take(m)) is Some ==> root == root0,
        fresh ==> 0 < m,
        fresh ==> (path_value(root, full.take(m)) matches Some(Value::Table(t)) && t@.len() == 0),
        path_value(root0, full.take(m + 1)) is None,
    ensures
        path_value(root, full.take(m + 1)) is None,
{
    if fresh {
        let t = path_value(root, full.take(m))->Some_0->Table_0;
        lemma_fresh_below(root, full, m, t);
    }
}

/// Whether a dotted key may pass through each of its parts before the last
/// in `d`: no part is an inline table, and each that is there is a table
/// that an earlier dotted key or a header on its way deeper created.
pub(crate) open spec fn parts_open(d: Document, full: Seq<Step>, c: int) -> bool {
    forall|n: int|
        c < n < full.len() ==> {
            &&& !holds_path(d.frozen@, #[trigger] full.take(n))
            &&& (path_value(d.root, full.take(n)) is None || (path_value(d.root, full.take(n)) matches Some(Value::Table(_))
                && (holds_path(d.dotted@, full.take(n)) || holds_path(d.implicit@, full.take(n)))))
        }
}

/// No table lies within a value that is not itself a table.
proof fn lemma_nothing_within(v: Value, k: int)
    requires
        !(v is Table),
    ensures
        forall|q: Seq<Step>| !#[trigger] table_within(v, q, k),
{
    assert forall|q: Seq<Step>| !#[trigger] table_within(v, q, k) by {
        reveal_with_fuel(table_within, 2);
    }
}

/// Whether `q` names a table within the `j`-th entry of the table `t` at
/// path `p`.
pub open spec fn frozen_below(t: Table, j: int, p: Seq<Step>, q: Seq<Step>) -> bool {
    &&& 0 <= j < t@.len()
    &&& q.len() > p.len()
    &&& q.take((p.len() + 1) as int) == p.push(Step::Key(t@[j].0))
    &&& table_within(t@[j].1, q, (p.len() + 1) as int)
}

/// The tables within a table are the table itself and those within its
/// entries.
proof fn lemma_frozen_below(t: Table, p: Seq<Step>, q: Seq<Step>)
    requires
        distinct_keys(t@),
    ensures
        (p.is_prefix_of(q) && table_within(Value::Table(t), q, p.len() as int)) == (q == p || exists|j: int|
            0 <= j < t@.len() && frozen_below(t, j, p, q)),
{
    let n = p.len() as int;
    if p.is_prefix_of(q) && table_within(Value::Table(t), q, n) {
        if q.len() > n {
            let key = q[n]->Key_0;
            lemma_key_index(t@, key);
            let j = key_index(t@, key);
            lemma_lookup_at(t@, j);
            assert(q.take(n + 1) =~= p.push(Step::Key(t@[j].0))) by {
                assert(q.take(n) =~= p);
            }
            assert(frozen_below(t, j, p, q));
        } else {
            assert(q =~= p);
        }
    }
    if q == p {
        assert(p.is_prefix_of(q));
    }
    if exists|j: int| 0 <= j < t@.len() && frozen_below(t, j, p, q) {
        let j = choose|j: int| 0 <= j < t@.len() && frozen_below(t, j, p, q);
        lemma_lookup_at(t@, j);
        assert(q.take(n + 1)[n] == q[n]);
        assert(p.is_prefix_of(q)) by {
            assert(q.take(n + 1).take(n) =~= q.take(n));
            assert(p.push(Step::Key(t@[j].0)).take(n) =~= p);
        }
    }
}

/// The state of a parse beyond the cursor: the document so far and what the
/// rules about defining tables need to remember.
pub(crate) struct Document {
    /// The document built so far.
    pub(crate) root: Table,
    /// The table that bare key/value pairs are currently written into.
    pub(crate) current: Vec<Seg>,
    /// Tables brought into being as an intermediate step of a `[a.b.c]`
    /// header. These may still be defined explicitly later on.
    pub(crate) implicit: Vec<Vec<Seg>>,
    /// Tables brought into being by a dotted key. A header may pass through
    /// one, but may not target it.
    pub(crate) dotted: Vec<Vec<Seg>>,
    /// Tables that came from inline table syntax, and everything nested in
    /// them. These are sealed: nothing may be added to them.
    pub(crate) frozen: Vec<Vec<Seg>>,
    /// Arrays declared with `[[header]]`, the only ones a later `[[header]]`
    /// may append to.
    pub(crate) arrays: Vec<Vec<Seg>>,
    /// Where each value was written, recorded only when asked for.
    pub(crate) spans: Option<Spans>,
}

impl Document {
    /// An empty document.
    pub(crate) fn new(spans: bool) -> (d: Document)
        ensures
            d.root@ == Seq::<(Seq<char>, Value)>::empty(),
            d.spans is Some <==> spans,
            built_of(d) == built_start(),
            d.frozen@.len() == 0,
    {
        let d = Document {
            root: Table::new(),
            current: Vec::new(),
            implicit: Vec::new(),
            dotted: Vec::new(),
            frozen: Vec::new(),
            arrays: Vec::new(),
            spans: if spans { Some(Spans::new()) } else { None },
        };
        proof {
            lemma_empty_table_tree(d.root);
            assert(path_of(d.current@) =~= Seq::<Step>::empty());
            assert(path_set(d.arrays@) =~= Set::<Seq<Step>>::empty());
            assert(path_set(d.implicit@) =~= Set::<Seq<Step>>::empty());
            assert(path_set(d.frozen@) =~= Set::<Seq<Step>>::empty());
        }
        d
    }

    /// What sits at `path`.
    fn slot(&self, path: &Vec<Seg>) -> (s: Slot)
        ensures
            s is Missing <==> path_value(self.root, path_of(path@)) is None,
            s is Table <==> path_value(self.root, path_of(path@)) matches Some(Value::Table(_)),
            s is Array <==> path_value(self.root, path_of(path@)) matches Some(Value::Array(_)),
            s matches Slot::Array(n) ==> path_value(self.root, path_of(path@)) matches Some(Value::Array(a))
                && a@.len() == n,
    {
        match lookup_path(&self.root, path) {
            None => Slot::Missing,
            Some(v) => match v {
                Value::Table(_) => Slot::Table,
                Value::Array(a) => Slot::Array(a.len()),
                _ => Slot::Other,
            },
        }
    }

    /// Stores `value` at `path`, whose parent exists.
    fn insert_at(&mut self, path: &Vec<Seg>, value: Value)
        ensures
            applied(Value::Table(old(self).root), Value::Table(final(self).root), path_of(path@), 0, value, false),
            final(self).current == old(self).current,
            final(self).implicit == old(self).implicit,
            final(self).dotted == old(self).dotted,
            final(self).frozen == old(self).frozen,
            final(self).arrays == old(self).arrays,
            final(self).spans == old(self).spans,
    {
        self.apply(path, value, false);
    }

    /// Appends `value` to the array at `path`.
    fn push_at(&mut self, path: &Vec<Seg>, value: Value)
        ensures
            applied(Value::Table(old(self).root), Value::Table(final(self).root), path_of(path@), 0, value, true),
            final(self).current == old(self).current,
            final(self).implicit == old(self).implicit,
            final(self).dotted == old(self).dotted,
            final(self).frozen == old(self).frozen,
            final(self).arrays == old(self).arrays,
            final(self).spans == old(self).spans,
    {
        self.apply(path, value, true);
    }

    fn apply(&mut self, path: &Vec<Seg>, value: Value, push: bool)
        ensures
            applied(Value::Table(old(self).root), Value::Table(final(self).root), path_of(path@), 0, value, push),
            final(self).current == old(self).current,
            final(self).implicit == old(self).implicit,
            final(self).dotted == old(self).dotted,
            final(self).frozen == old(self).frozen,
            final(self).arrays == old(self).arrays,
            final(self).spans == old(self).spans,
    {
        let mut root = Table::new();
        std::mem::swap(&mut root, &mut self.root);
        let mut v = Value::Table(root);
        apply_at(&mut v, path, 0, value, push);
        proof {
            lemma_applied_keeps_kind(Value::Table(old(self).root), v, path_of(path@), 0, value, push);
        }
        match v {
            Value::Table(t) => {
                self.root = t;
            },
            _ => {},
        }
    }

    /// Marks an inline table, and every table nested in it, as sealed.
    fn freeze(&mut self, path: &Vec<Seg>, value: &Value)
        ensures
            final(self).root == old(self).root,
            final(self).current == old(self).current,
            final(self).implicit == old(self).implicit,
            final(self).dotted == old(self).dotted,
            final(self).arrays == old(self).arrays,
            final(self).spans == old(self).spans,
            forall|q: Seq<Step>| #[trigger] holds_path(final(self).frozen@, q) == (holds_path(old(self).frozen@, q) || (
            path_of(path@).is_prefix_of(q) && table_within(*value, q, path_of(path@).len() as int))),
        decreases *value,
    {
        let ghost p = path_of(path@);
        match value {
            Value::Table(table) => {
                let ghost f0 = self.frozen@;
                set_insert(&mut self.frozen, path);
                table.keys_are_distinct();
                let mut i: usize = 0;
                while i < table.len()
                    invariant
                        i <= table@.len(),
                        *value == Value::Table(*table),
                        distinct_keys(table@),
                        p == path_of(path@),
                        f0 == old(self).frozen@,
                        self.root == old(self).root,
                        self.current == old(self).current,
                        self.implicit == old(self).implicit,
                        self.dotted == old(self).dotted,
                        self.arrays == old(self).arrays,
                        self.spans == old(self).spans,
                        forall|q: Seq<Step>| #[trigger] holds_path(self.frozen@, q) == (holds_path(f0, q) || q == p || exists|j: int|
                            0 <= j < i && frozen_below(*table, j, p, q)),
                    decreases table@.len() - i,
                {
                    let ghost fb = self.frozen@;
                    let (key, child) = table.entry_at(i);
                    let mut child_path = copy_path(path);
                    let ghost cp0 = child_path@;
                    let seg = Seg::Key(key.to_owned());
                    let ghost sg = seg;
                    child_path.push(seg);
                    proof {
                        lemma_path_push(cp0, sg);
                        lemma_entry_decreases(*table, i as int);
                        assert(decreases_to!(*value => value->Table_0));
                    }
                    self.freeze(&child_path, child);
                    proof {
                        let cp = path_of(child_path@);
                        assert(cp == p.push(Step::Key(table@[i as int].0)));
                        assert forall|q: Seq<Step>| #[trigger] holds_path(self.frozen@, q) == (holds_path(f0, q) || q == p
                            || exists|j: int| 0 <= j < i + 1 && frozen_below(*table, j, p, q)) by {
                            if cp.is_prefix_of(q) && table_within(*child, q, cp.len() as int) {
                                assert(q.take((p.len() + 1) as int) =~= cp) by {
                                    assert(q.take((p.len() + 1) as int) =~= q.subrange(0, cp.len() as int));
                                }
                                assert(frozen_below(*table, i as int, p, q));
                            }
                            if exists|j: int| 0 <= j < i + 1 && frozen_below(*table, j, p, q) {
                                let j = choose|j: int| 0 <= j < i + 1 && frozen_below(*table, j, p, q);
                                if j == i {
                                    assert(cp =~= q.subrange(0, cp.len() as int));
                                }
                            }
                        }
                    }
                    i += 1;
                }
                proof {
                    assert forall|q: Seq<Step>| #[trigger] holds_path(self.frozen@, q) == (holds_path(f0, q) || (p.is_prefix_of(q)
                        && table_within(*value, q, p.len() as int))) by {
                        lemma_frozen_below(*table, p, q);
                    }
                }
            },
            _ => {},
        }
    }
}

/// The byte offset of position `p`, or `usize::MAX` where it would not fit.
pub open spec fn offset_at(s: Seq<char>, p: int) -> usize {
    if byte_offset(s, p) <= usize::MAX {
        byte_offset(s, p) as usize
    } else {
        usize::MAX
    }
}

/// The span of a value written from `start` to `end`, whose value starts at
/// `value_start`: byte ranges, and the line and column it starts at.
pub open spec fn span_at(s: Seq<char>, start: int, end: int, value_start: int) -> Span {
    Span {
        range: Range { start: offset_at(s, start), end: offset_at(s, end) },
        value: Range { start: offset_at(s, value_start), end: offset_at(s, end) },
        line: (newlines_before(s, start) + 1) as usize,
        column: (start - line_start_of(s, start) + 1) as usize,
    }
}

impl Parser {
    // ----- building the document ------------------------------------------

    /// Notes where a value was written, if spans were asked for. Positions
    /// are character positions; spans report byte offsets.
    fn record_span(&self, doc: &mut Document, path: &Vec<Seg>, start: usize, end: usize, value_start: usize)
        requires
            self.wf(),
            start <= end <= self.cs.len(),
            value_start <= end,
        ensures
            final(doc).spans is Some <==> old(doc).spans is Some,
            final(doc).root == old(doc).root,
            final(doc).current == old(doc).current,
            final(doc).implicit == old(doc).implicit,
            final(doc).dotted == old(doc).dotted,
            final(doc).frozen == old(doc).frozen,
            final(doc).arrays == old(doc).arrays,
            old(doc).spans matches Some(sp) ==> (final(doc).spans matches Some(sp2) && sp2@ == recorded(
                sp@,
                raw_path(path@),
                span_at(self.cs@, start as int, end as int, value_start as int),
            )),
    {
        match &mut doc.spans {
            Some(spans) => {
                let (line, column) = self.position(start);
                let key = render_raw(path);
                let span = Span {
                    range: Range { start: self.byte_offset(start), end: self.byte_offset(end) },
                    value: Range { start: self.byte_offset(value_start), end: self.byte_offset(end) },
                    line,
                    column,
                };
                spans.record(key, span);
            },
            None => {},
        }
    }

    /// Walks the keys of a header but its last, creating the tables it
    /// passes through that are not there yet; returns the path walked.
    #[verifier::spinoff_prover]
    #[verifier::rlimit(100)]
    fn header_prefix(&self, doc: &mut Document, keys: &Vec<String>, start: usize) -> (r: Result<Vec<Seg>, Error>)
        requires
            self.wf(),
            start <= self.pos,
            keys@.len() > 0,
        ensures
            has_line(r),
            final(doc).spans is Some <==> old(doc).spans is Some,
            final(doc).frozen@ == old(doc).frozen@,
            final(doc).arrays@ == old(doc).arrays@,
            final(doc).current == old(doc).current,
            r matches Ok(path) ==> {
                let p = path_of(path@);
                &&& keys_in(p) == keys@.map_values(|k: String| k@).take(keys@.len() - 1)
                &&& forall|q: Seq<Step>| !q.is_prefix_of(p) ==> #[trigger] path_value(final(doc).root, q) == path_value(old(doc).root, q)
                &&& arrays_hold_tables(old(doc).root, old(doc).arrays@) ==> table_at(final(doc).root, p)
                &&& forall|n: int| 0 < n <= p.len() && p[n - 1] is Key ==> !holds_path(old(doc).frozen@, #[trigger] p.take(n))
                &&& forall|q: Seq<Step>| #[trigger] holds_path(final(doc).implicit@, q) ==> holds_path(old(doc).implicit@, q) || q.is_prefix_of(p)
            },
            walk(
                doc_tree(old(doc).root),
                Seq::empty(),
                key_views(keys@),
                0,
                keys@.len() - 1,
                path_set(old(doc).arrays@),
            ) matches Some((r1, pb)) ==> (unfrozen(pb, path_set(old(doc).frozen@)) ==> (r matches Ok(path) && path_of(path@)
                == pb && doc_tree(final(doc).root) == r1)),
            walk(
                doc_tree(old(doc).root),
                Seq::empty(),
                key_views(keys@),
                0,
                keys@.len() - 1,
                path_set(old(doc).arrays@),
            ) matches Some((r1, pb)) ==> (unfrozen(pb, path_set(old(doc).frozen@)) ==> path_set(final(doc).implicit@) == path_set(old(doc).implicit@).union(
                walk_created(
                    doc_tree(old(doc).root),
                    Seq::empty(),
                    key_views(keys@),
                    0,
                    keys@.len() - 1,
                    path_set(old(doc).arrays@),
                ),
            )),
    {
        let ghost root0 = doc.root;
        let ghost implicit0 = doc.implicit@;
        let ghost frozen0 = doc.frozen@;
        let ghost arrays0 = doc.arrays@;
        let ghost ks = keys@.map_values(|k: String| k@);
        let ghost aht = arrays_hold_tables(root0, arrays0);
        let ghost aset = path_set(arrays0);
        assert(key_views(keys@) =~= ks);
        let ghost whole = walk(doc_tree(root0), Seq::empty(), ks, 0, keys@.len() - 1, aset);
        let ghost goal = whole is Some && unfrozen(whole->Some_0.1, path_set(frozen0));
        let count = keys.len();
        let mut path: Vec<Seg> = Vec::new();
        let mut i: usize = 0;
        assert(path_of(path@) =~= Seq::<Step>::empty());
        assert(ks.take(0) =~= Seq::<Seq<char>>::empty());
        while i + 1 < count
            invariant
                self.wf(),
                start <= self.pos,
                count == keys.len(),
                0 < count,
                i < count,
                ks == keys@.map_values(|k: String| k@),
                root0 == old(doc).root,
                implicit0 == old(doc).implicit@,
                frozen0 == old(doc).frozen@,
                arrays0 == old(doc).arrays@,
                aht == arrays_hold_tables(root0, arrays0),
                doc.frozen@ == frozen0,
                doc.arrays@ == arrays0,
                doc.spans is Some <==> old(doc).spans is Some,
                doc.current == old(doc).current,
                keys_in(path_of(path@)) == ks.take(i as int),
                forall|q: Seq<Step>| !q.is_prefix_of(path_of(path@)) ==> #[trigger] path_value(doc.root, q) == path_value(root0, q),
                aht ==> table_at(doc.root, path_of(path@)),
                forall|n: int|
                    0 < n <= path_of(path@).len() && path_of(path@)[n - 1] is Key
                        ==> !holds_path(frozen0, #[trigger] path_of(path@).take(n)),
                forall|q: Seq<Step>| #[trigger] holds_path(doc.implicit@, q) ==> holds_path(implicit0, q) || q.is_prefix_of(path_of(path@)),
                aset == path_set(arrays0),
                ks == key_views(keys@),
                whole == walk(doc_tree(root0), Seq::empty(), ks, 0, keys@.len() - 1, aset),
                goal == (whole is Some && unfrozen(whole->Some_0.1, path_set(frozen0))),
                goal ==> walk(doc_tree(doc.root), path_of(path@), ks, i as int, count - 1, aset) == whole,
                goal ==> path_set(implicit0).union(walk_created(doc_tree(root0), Seq::empty(), ks, 0, keys@.len() - 1, aset))
                    == path_set(doc.implicit@).union(
                    walk_created(doc_tree(doc.root), path_of(path@), ks, i as int, count - 1, aset),
                ),
            decreases count - i,
        {
            let ghost pb = path_of(path@);
            let ghost pbs = path@;
            let seg = Seg::Key(keys[i].clone());
            let ghost sg = seg;
            path.push(seg);
            let ghost pk = path_of(path@);
            proof {
                lemma_path_push(pbs, sg);
                lemma_keys_in_push(pb, step_of(sg));
                assert(ks.take(i + 1) =~= ks.take(i as int).push(ks[i as int]));
                assert(pk == pb.push(Step::Key(ks[i as int])));
            }
            proof {
                if goal {
                    lemma_walk_first(doc_tree(doc.root), pb, ks, i as int, count - 1, aset);
                    let p2 = whole->Some_0.1;
                    assert(pk =~= p2.take(pk.len() as int));
                    assert(pk[pk.len() - 1] is Key);
                    assert(!path_set(frozen0).contains(p2.take(pk.len() as int)));
                    assert(!holds_path(frozen0, pk));
                }
            }
            if set_contains(&doc.frozen, &path) {
                return Err(self.error_at(start, path_message("cannot add to `", &path, "`: it is an inline table")));
            }
            proof {
                lemma_frozen_step(pb, step_of(sg), frozen0);
                lemma_not_longer_prefix(pk, pb);
            }
            match doc.slot(&path) {
                Slot::Missing => {
                    let ghost before = doc.root;
                    let nt = Table::new();
                    let ghost ntg = nt;
                    doc.insert_at(&path, Value::Table(nt));
                    proof {
                        if goal {
                            lemma_walk_missing(before, doc.root, ntg, pb, ks, i as int, count - 1, aset);
                        }
                        lemma_nothing_below_empty(ntg, pk);
                        assert(pk.drop_last() =~= pb);
                        assert forall|q: Seq<Step>| !q.is_prefix_of(pk) implies #[trigger] path_value(doc.root, q) == path_value(root0, q) by {
                            lemma_create_frame(before, doc.root, pk, Value::Table(ntg), pk, root0, q);
                        }
                        if aht {
                            lemma_created_here(before, doc.root, pk, Value::Table(ntg));
                        }
                    }
                    let ghost imp_before = doc.implicit@;
                    set_insert(&mut doc.implicit, &path);
                    proof {
                        if goal {
                            lemma_path_set_insert(imp_before, doc.implicit@, pk);
                            assert(path_set(imp_before).union(walk_created(doc_tree(before), pb, ks, i as int, count - 1, aset))
                                =~= path_set(doc.implicit@).union(
                                walk_created(doc_tree(doc.root), pk, ks, i + 1, count - 1, aset),
                            ));
                        }
                        assert forall|q: Seq<Step>| #[trigger] holds_path(doc.implicit@, q) implies holds_path(implicit0, q)
                            || q.is_prefix_of(pk) by {
                            if holds_path(imp_before, q) {
                                if q.is_prefix_of(pb) {
                                    lemma_prefix_push(q, pb, step_of(sg));
                                }
                            } else {
                                assert(q == pk);
                                assert(q =~= pk.subrange(0, q.len() as int));
                            }
                        }
                    }
                },
                Slot::Table => {
                    proof {
                        if goal {
                            lemma_walk_table(doc.root, pb, ks, i as int, count - 1, aset);
                        }
                        lemma_implicit_grow(doc.implicit@, pb, step_of(sg), implicit0);
                        lemma_frame_grow(doc.root, root0, pb, step_of(sg));
                    }
                },
                Slot::Array(len) => {
                    proof {
                        if goal {
                            assert(aset.contains(pk) == holds_path(doc.arrays@, pk));
                            if !(holds_path(doc.arrays@, pk) && len > 0) {
                                lemma_walk_refused(doc.root, pb, ks, i as int, count - 1, aset);
                            } else {
                                lemma_walk_array(doc.root, pb, ks, i as int, count - 1, aset, len as int);
                            }
                        }
                    }
                    if set_contains(&doc.arrays, &path) && len > 0 {
                        let ghost pks = path@;
                        let iseg = Seg::Index(len - 1);
                        let ghost isg = iseg;
                        path.push(iseg);
                        proof {
                            lemma_path_push(pks, isg);
                            lemma_keys_in_push(pk, step_of(isg));
                            lemma_frozen_index(pk, step_of(isg), frozen0);
                            lemma_implicit_grow(doc.implicit@, pb, step_of(sg), implicit0);
                            lemma_implicit_grow(doc.implicit@, pk, step_of(isg), implicit0);
                            lemma_frame_grow(doc.root, root0, pb, step_of(sg));
                            lemma_frame_grow(doc.root, root0, pk, step_of(isg));
                            if aht {
                                lemma_into_last_element(doc.root, root0, arrays0, pk, len as int);
                            }
                        }
                    } else {
                        return Err(self.error_at(start, path_message("`", &path, "` is not a table")));
                    }
                },
                Slot::Other => {
                    proof {
                        if goal {
                            lemma_walk_refused(doc.root, pb, ks, i as int, count - 1, aset);
                        }
                    }
                    return Err(self.error_at(start, path_message("`", &path, "` is not a table")));
                },
            }
            i += 1;
        }
        proof {
            if goal {
                assert(path_set(doc.implicit@).union(Set::<Seq<Step>>::empty()) =~= path_set(doc.implicit@));
            }
        }
        Ok(path)
    }

    /// Applies a `[table]` or `[[array]]` header, and makes it current.
    #[verifier::spinoff_prover]
    #[verifier::rlimit(100)]
    fn define_table(&self, doc: &mut Document, keys: Vec<String>, is_array: bool, start: usize) -> (r: Result<(), Error>)
        requires
            self.wf(),
            start <= self.pos,
            keys@.len() > 0,
        ensures
            has_line(r),
            final(doc).spans is Some <==> old(doc).spans is Some,
            r is Ok ==> keys_in(path_of(final(doc).current@)) == keys@.map_values(|k: String| k@),
            r is Ok ==> forall|q: Seq<Step>|
                !q.is_prefix_of(path_of(final(doc).current@))
                    ==> #[trigger] path_value(final(doc).root, q) == path_value(old(doc).root, q),
            r is Ok ==> forall|n: int|
                0 < n <= path_of(final(doc).current@).len() && path_of(final(doc).current@)[n - 1] is Key
                    ==> !holds_path(old(doc).frozen@, #[trigger] path_of(final(doc).current@).take(n)),
            r is Ok && !is_array ==> no_earlier_table(old(doc).root, old(doc).implicit@, path_of(final(doc).current@)),
            r is Ok && is_array ==> appended_array(old(doc).root, old(doc).arrays@, path_of(final(doc).current@)),
            r is Ok && arrays_hold_tables(old(doc).root, old(doc).arrays@)
                ==> opened(final(doc).root, path_of(final(doc).current@), is_array),
            header_step(built_of(*old(doc)), key_views(keys@), is_array) matches Some(b) ==> (r is Ok && built_of(*final(doc))
                == b),
            header_redefines(built_of(*old(doc)), key_views(keys@), is_array) ==> r is Err,
            final(doc).frozen@ == old(doc).frozen@,
            r is Ok && !is_array && path_value(old(doc).root, path_of(final(doc).current@)) is Some ==> !holds_path(
                final(doc).implicit@,
                path_of(final(doc).current@),
            ),
    {
        let ghost root0 = doc.root;
        let ghost implicit0 = doc.implicit@;
        let ghost frozen0 = doc.frozen@;
        let ghost arrays0 = doc.arrays@;
        let ghost ks = keys@.map_values(|k: String| k@);
        let ghost aht = arrays_hold_tables(root0, arrays0);
        let count = keys.len();
        proof {
            assert(key_views(keys@) =~= ks);
            let hs = header_step(built_of(*doc), ks, is_array);
            if hs is Some || header_redefines(built_of(*doc), ks, is_array) {
                let w = walk(doc_tree(doc.root), Seq::empty(), ks, 0, keys@.len() - 1, path_set(doc.arrays@));
                let pb0 = w->Some_0.1;
                lemma_unfrozen_prefix(pb0, pb0.push(Step::Key(ks.last())), path_set(frozen0));
            }
        }
        let mut path = self.header_prefix(doc, &keys, start)?;
        let ghost pb = path_of(path@);
        let ghost pbs = path@;
        let seg = Seg::Key(keys[count - 1].clone());
        let ghost sg = seg;
        path.push(seg);
        let ghost pk = path_of(path@);
        proof {
            lemma_path_push(pbs, sg);
            lemma_keys_in_push(pb, step_of(sg));
            assert(ks.take(count as int) =~= ks.take((count - 1) as int).push(ks[count - 1]));
            assert(ks.take(count as int) =~= ks);
        }
        proof {
            if header_step(built_of(*old(doc)), ks, is_array) is Some || header_redefines(built_of(*old(doc)), ks, is_array) {
                assert(pk.take(pk.len() as int) =~= pk);
                assert(!path_set(frozen0).contains(pk.take(pk.len() as int)));
            }
        }
        if set_contains(&doc.frozen, &path) {
            return Err(self.error_at(start, path_message("cannot add to `", &path, "`: it is an inline table")));
        }
        proof {
            lemma_frozen_step(pb, step_of(sg), frozen0);
            lemma_not_longer_prefix(pk, pb);
            assert(path_value(doc.root, pk) == path_value(root0, pk));
        }
        proof {
            assert(pk.drop_last() =~= pb);
            assert(key_views(keys@) =~= ks);
            lemma_tree_path(doc.root, pk);
        }
        let ghost mid = *doc;
        let fc = if is_array {
            self.open_array_element(doc, path, start, Ghost(root0), Ghost(implicit0))?
        } else {
            self.open_table(doc, path, start, Ghost(root0), Ghost(implicit0))?
        };
        proof {
            if !is_array && path_value(mid.root, pk) matches Some(Value::Table(_)) {
                assert(path_set(doc.implicit@) =~= path_set(mid.implicit@).remove(pk));
            }
        }
        proof {
            if is_array {
                let f = path_of(fc@);
                assert(f =~= pk.push(f.last()));
                lemma_keys_in_push(pk, f.last());
                lemma_frozen_index(pk, f.last(), frozen0);
            }
        }
        self.record_span(doc, &fc, start, self.pos, start);
        doc.current = fc;
        Ok(())
    }

    /// The last step of an `[[array]]` header: a new empty table at the end
    /// of the array at `path`, which is created if it is not there.
    #[verifier::spinoff_prover]
    #[verifier::rlimit(100)]
    fn open_array_element(&self, doc: &mut Document, path: Vec<Seg>, start: usize, Ghost(root0): Ghost<Table>, Ghost(implicit0): Ghost<Seq<Vec<Seg>>>) -> (r: Result<Vec<Seg>, Error>)
        requires
            self.wf(),
            start <= self.pos,
            path_of(path@).len() > 0,
            path_of(path@).last() is Key,
            forall|q: Seq<Step>|
                !q.is_prefix_of(path_of(path@).drop_last())
                    ==> #[trigger] path_value(old(doc).root, q) == path_value(root0, q),
            arrays_hold_tables(root0, old(doc).arrays@) ==> table_at(old(doc).root, path_of(path@).drop_last()),
            forall|q: Seq<Step>|
                #[trigger] holds_path(old(doc).implicit@, q)
                    ==> holds_path(implicit0, q) || q.is_prefix_of(path_of(path@).drop_last()),
        ensures
            has_line(r),
            final(doc).spans is Some <==> old(doc).spans is Some,
            final(doc).frozen@ == old(doc).frozen@,
            final(doc).current == old(doc).current,
            final(doc).implicit == old(doc).implicit,
            r matches Ok(fc) ==> path_of(fc@).len() == path_of(path@).len() + 1,
            r matches Ok(fc) ==> path_of(fc@).drop_last() == path_of(path@),
            r matches Ok(fc) ==> path_of(fc@).last() is Index,
            r matches Ok(fc) ==> forall|q: Seq<Step>|
                !q.is_prefix_of(path_of(fc@)) ==> #[trigger] path_value(final(doc).root, q) == path_value(root0, q),
            r matches Ok(fc) ==> appended_array(root0, old(doc).arrays@, path_of(fc@)),
            r matches Ok(fc) ==> (arrays_hold_tables(root0, old(doc).arrays@) ==> opened(final(doc).root, path_of(fc@), true)),
            path_value(old(doc).root, path_of(path@)) is Some && !(path_value(old(doc).root, path_of(path@)) matches Some(
                Value::Array(_),
            ) && holds_path(old(doc).arrays@, path_of(path@))) ==> r is Err,
            tree_get(doc_tree(old(doc).root), path_of(path@), 0) is None ==> (r matches Ok(fc) && path_of(fc@) == path_of(
                path@,
            ).push(Step::Index(0)) && doc_tree(final(doc).root) == tree_apply(
                doc_tree(old(doc).root),
                path_of(path@),
                0,
                Tree::Arr(seq![Tree::Tab(Seq::empty())]),
                false,
            ) && path_set(final(doc).arrays@) == path_set(old(doc).arrays@).insert(path_of(path@))),
            tree_get(doc_tree(old(doc).root), path_of(path@), 0) matches Some(Tree::Arr(items)) ==> (path_set(
                old(doc).arrays@,
            ).contains(path_of(path@)) ==> (r matches Ok(fc) && path_of(fc@) == path_of(path@).push(
                Step::Index(items.len() as int),
            ) && doc_tree(final(doc).root) == tree_apply(
                doc_tree(old(doc).root),
                path_of(path@),
                0,
                Tree::Tab(Seq::empty()),
                true,
            ) && final(doc).arrays == old(doc).arrays)),
    {
        proof {
            lemma_tree_path(doc.root, path_of(path@));
        }
        let ghost pk = path_of(path@);
        let ghost pb = pk.drop_last();
        let ghost aht = arrays_hold_tables(root0, doc.arrays@);
        proof {
            lemma_not_longer_prefix(pk, pb);
        }
        let mut path = path;
        match doc.slot(&path) {
            Slot::Missing => {
                let ghost before = doc.root;
                let nt = Table::new();
                let ghost ntg = nt;
                let mut items: Vec<Value> = Vec::new();
                items.push(Value::Table(nt));
                let ghost nv = Value::Array(items);
                doc.insert_at(&path, Value::Array(items));
                let ghost arrays_before = doc.arrays@;
                set_insert(&mut doc.arrays, &path);
                let ghost pks = path@;
                let iseg = Seg::Index(0);
                let ghost isg = iseg;
                path.push(iseg);
                proof {
                    assert(nv->Array_0@ =~= seq![Value::Table(ntg)]);
                    lemma_create_array_tree(before, doc.root, pk, ntg, nv);
                    lemma_path_set_insert(arrays_before, doc.arrays@, pk);
                    lemma_path_push(pks, isg);
                    let fc = path_of(path@);
                    assert(nv->Array_0@ =~= seq![Value::Table(ntg)]);
                    lemma_nothing_below_array(nv, ntg, pk);
                    assert(pk.drop_last() =~= pb);
                    assert(pk.is_prefix_of(fc)) by {
                        assert(pk =~= fc.subrange(0, pk.len() as int));
                    }
                    assert forall|q: Seq<Step>| !q.is_prefix_of(fc) implies #[trigger] path_value(doc.root, q) == path_value(root0, q) by {
                        lemma_create_frame(before, doc.root, pk, nv, fc, root0, q);
                    }
                    assert(fc.drop_last() =~= pk);
                    assert(fc.last() == Step::Index(0));
                    if aht {
                        lemma_created_here(before, doc.root, pk, nv);
                        lemma_one_more_step(doc.root, pk, Step::Index(0));
                        assert(nv->Array_0@[0] == Value::Table(ntg));
                        assert(value_at(Value::Table(ntg), fc, pk.len() as int + 1) == Some(Value::Table(ntg)));
                        assert(path_value(doc.root, fc) == Some(Value::Table(ntg)));
                    }
                }
            },
            Slot::Array(len) => {
                if set_contains(&doc.arrays, &path) {
                    let ghost before = doc.root;
                    let nt = Table::new();
                    let ghost ntg = nt;
                    doc.push_at(&path, Value::Table(nt));
                    let ghost pks = path@;
                    let iseg = Seg::Index(len);
                    let ghost isg = iseg;
                    path.push(iseg);
                    proof {
                        lemma_push_table_tree(before, doc.root, pk, ntg);
                        lemma_array_tree(before, pk);
                        lemma_path_push(pks, isg);
                        let fc = path_of(path@);
                        assert(pk.drop_last() =~= pb);
                        assert forall|q: Seq<Step>| !q.is_prefix_of(fc) implies #[trigger] path_value(doc.root, q) == path_value(root0, q) by {
                            lemma_push_frame(before, doc.root, pk, ntg, root0, q);
                        }
                        assert(fc.drop_last() =~= pk);
                        lemma_path_value_root(before, pk);
                        lemma_path_value_root(doc.root, pk);
                        lemma_applied_push(Value::Table(before), Value::Table(doc.root), pk, 0, Value::Table(ntg));
                        lemma_one_more_step(doc.root, pk, Step::Index(len as int));
                        assert(fc.last() == Step::Index(len as int));
                        let b = path_value(doc.root, pk)->Some_0->Array_0;
                        assert(b@[len as int] == Value::Table(ntg));
                        assert(value_at(Value::Table(ntg), fc, pk.len() as int + 1) == Some(Value::Table(ntg)));
                        assert(path_value(doc.root, fc) == Some(Value::Table(ntg)));
                    }
                } else {
                    proof {
                        assert(!path_set(doc.arrays@).contains(pk));
                    }
                    return Err(self.error_at(start, path_message("`", &path, "` is already defined and is not an array of tables")));
                }
            },
            _ => {
                proof {
                    if path_value(doc.root, pk) matches Some(Value::Array(_)) {
                    }
                }
                return Err(self.error_at(start, path_message("`", &path, "` is already defined and is not an array of tables")));
            },
        }
        Ok(path)
    }

    /// The last step of a `[table]` header: the table at `path`, created if
    /// it is not there, or claimed if an earlier header created it on its way
    /// deeper.
    #[verifier::spinoff_prover]
    #[verifier::rlimit(100)]
    fn open_table(&self, doc: &mut Document, path: Vec<Seg>, start: usize, Ghost(root0): Ghost<Table>, Ghost(implicit0): Ghost<Seq<Vec<Seg>>>) -> (r: Result<Vec<Seg>, Error>)
        requires
            self.wf(),
            start <= self.pos,
            path_of(path@).len() > 0,
            path_of(path@).last() is Key,
            forall|q: Seq<Step>|
                !q.is_prefix_of(path_of(path@).drop_last())
                    ==> #[trigger] path_value(old(doc).root, q) == path_value(root0, q),
            arrays_hold_tables(root0, old(doc).arrays@) ==> table_at(old(doc).root, path_of(path@).drop_last()),
            forall|q: Seq<Step>|
                #[trigger] holds_path(old(doc).implicit@, q)
                    ==> holds_path(implicit0, q) || q.is_prefix_of(path_of(path@).drop_last()),
        ensures
            has_line(r),
            final(doc).spans is Some <==> old(doc).spans is Some,
            final(doc).frozen@ == old(doc).frozen@,
            final(doc).current == old(doc).current,
            r matches Ok(fc) ==> {
                &&& path_of(fc@) == path_of(path@)
                &&& forall|q: Seq<Step>|
                    !q.is_prefix_of(path_of(fc@)) ==> #[trigger] path_value(final(doc).root, q) == path_value(root0, q)
                &&& no_earlier_table(root0, implicit0, path_of(fc@))
                &&& arrays_hold_tables(root0, old(doc).arrays@) ==> opened(final(doc).root, path_of(fc@), false)
            },
            final(doc).arrays == old(doc).arrays,
            path_value(old(doc).root, path_of(path@)) is None ==> final(doc).implicit == old(doc).implicit,
            path_value(old(doc).root, path_of(path@)) matches Some(Value::Table(_)) ==> (r is Ok <==> holds_path(
                old(doc).implicit@,
                path_of(path@),
            )),
            path_value(old(doc).root, path_of(path@)) matches Some(Value::Table(_)) ==> forall|q: Seq<Step>|
                #[trigger] holds_path(final(doc).implicit@, q) == (holds_path(old(doc).implicit@, q) && q != path_of(path@)),
            path_value(old(doc).root, path_of(path@)) matches Some(v) ==> (!(v is Table) ==> r is Err),
            path_value(old(doc).root, path_of(path@)) matches Some(Value::Table(_)) ==> final(doc).root == old(doc).root
                && (r matches Ok(fc) ==> path_of(fc@) == path_of(path@)),
            tree_get(doc_tree(old(doc).root), path_of(path@), 0) is None ==> (r matches Ok(fc) && path_of(fc@) == path_of(
                path@,
            ) && doc_tree(final(doc).root) == tree_apply(
                doc_tree(old(doc).root),
                path_of(path@),
                0,
                Tree::Tab(Seq::empty()),
                false,
            )),
    {
        proof {
            lemma_tree_path(doc.root, path_of(path@));
        }
        let ghost pk = path_of(path@);
        let ghost pb = pk.drop_last();
        let ghost aht = arrays_hold_tables(root0, doc.arrays@);
        proof {
            lemma_not_longer_prefix(pk, pb);
        }
        let mut path = path;
        match doc.slot(&path) {
            Slot::Missing => {
                let ghost before = doc.root;
                let nt = Table::new();
                let ghost ntg = nt;
                doc.insert_at(&path, Value::Table(nt));
                proof {
                    lemma_create_table_tree(before, doc.root, pk, ntg);
                    lemma_nothing_below_empty(ntg, pk);
                    assert(pk.drop_last() =~= pb);
                    assert forall|q: Seq<Step>| !q.is_prefix_of(pk) implies #[trigger] path_value(doc.root, q) == path_value(root0, q) by {
                        lemma_create_frame(before, doc.root, pk, Value::Table(ntg), pk, root0, q);
                    }
                    if aht {
                        lemma_created_here(before, doc.root, pk, Value::Table(ntg));
                    }
                }
            },
            Slot::Table => {
                // Only a table conjured up by an earlier header path
                // may be claimed by a header of its own.
                if !set_remove(&mut doc.implicit, &path) {
                    return Err(self.error_at(start, path_message("`", &path, "` is already defined")));
                }
                proof {
                    assert(pk =~= pb.push(pk.last()));
                    lemma_frame_grow(doc.root, root0, pb, pk.last());
                }
            },
            _ => {
                return Err(self.error_at(start, path_message("`", &path, "` is already defined")));
            },
        }
        Ok(path)
    }

    /// Stores a key/value pair in the current table.
    #[verifier::spinoff_prover]
    #[verifier::rlimit(100)]
    fn insert_keyval(&self, doc: &mut Document, keys: Vec<String>, value: Value, start: usize, value_start: usize) -> (r: Result<(), Error>)
        requires
            self.wf(),
            start <= value_start <= self.pos,
        ensures
            has_line(r),
            final(doc).spans is Some <==> old(doc).spans is Some,
            final(doc).current == old(doc).current,
            path_value(old(doc).root, full_path(old(doc).current@, keys@)) is Some ==> r is Err,
            r is Ok ==> forall|n: int|
                path_of(old(doc).current@).len() < n < full_path(old(doc).current@, keys@).len()
                    ==> !holds_path(old(doc).frozen@, #[trigger] full_path(old(doc).current@, keys@).take(n)),
            r is Ok ==> forall|n: int|
                path_of(old(doc).current@).len() < n < full_path(old(doc).current@, keys@).len()
                    && path_value(old(doc).root, #[trigger] full_path(old(doc).current@, keys@).take(n)) is Some
                    ==> path_value(old(doc).root, full_path(old(doc).current@, keys@).take(n)) matches Some(Value::Table(_)),
            r is Ok && keys@.len() > 0 && table_at(old(doc).root, path_of(old(doc).current@))
                ==> path_value(final(doc).root, full_path(old(doc).current@, keys@)) == Some(value),
            r is Ok ==> forall|q: Seq<Step>|
                parts_from(q, full_path(old(doc).current@, keys@))
                    ==> #[trigger] path_value(final(doc).root, q) == path_value(old(doc).root, q),
            final(doc).arrays == old(doc).arrays,
            keys@.len() == 1 && !(value is Table) ==> final(doc).frozen == old(doc).frozen,
            keys@.len() > 1 && table_at(old(doc).root, path_of(old(doc).current@)) && parts_open(
                *old(doc),
                full_path(old(doc).current@, keys@),
                path_of(old(doc).current@).len() as int,
            ) && path_value(old(doc).root, full_path(old(doc).current@, keys@)) is None ==> r is Ok,
            r is Ok && keys@.len() > 0 ==> forall|q: Seq<Step>| #[trigger] holds_path(final(doc).frozen@, q) == (holds_path(
                old(doc).frozen@,
                q,
            ) || (full_path(old(doc).current@, keys@).is_prefix_of(q) && table_within(
                value,
                q,
                full_path(old(doc).current@, keys@).len() as int,
            ))),
            keys@.len() == 1 && r is Ok ==> applied(
                Value::Table(old(doc).root),
                Value::Table(final(doc).root),
                full_path(old(doc).current@, keys@),
                0,
                value,
                false,
            ),
            keys@.len() == 1 && path_value(old(doc).root, full_path(old(doc).current@, keys@)) is None ==> r is Ok,
            r is Ok ==> forall|n: int|
                path_of(old(doc).current@).len() < n < full_path(old(doc).current@, keys@).len() && path_value(
                    old(doc).root,
                    #[trigger] full_path(old(doc).current@, keys@).take(n),
                ) is Some ==> holds_path(old(doc).dotted@, full_path(old(doc).current@, keys@).take(n)) || holds_path(
                    old(doc).implicit@,
                    full_path(old(doc).current@, keys@).take(n),
                ),
            r is Ok ==> forall|n: int|
                path_of(old(doc).current@).len() < n < full_path(old(doc).current@, keys@).len() ==> holds_path(
                    final(doc).dotted@,
                    #[trigger] full_path(old(doc).current@, keys@).take(n),
                ),
            r is Ok ==> forall|q: Seq<Step>|
                (q.len() <= path_of(old(doc).current@).len() || q.len() >= full_path(old(doc).current@, keys@).len() || q
                    != full_path(old(doc).current@, keys@).take(q.len() as int)) ==> (#[trigger] holds_path(final(doc).dotted@, q)
                    == holds_path(old(doc).dotted@, q) && holds_path(final(doc).implicit@, q) == holds_path(
                    old(doc).implicit@,
                    q,
                )),
    {
        let ghost c = path_of(doc.current@);
        let ghost full = full_path(doc.current@, keys@);
        let ghost root0 = doc.root;
        let ghost frozen0 = doc.frozen@;
        let ghost dotted0 = doc.dotted@;
        let ghost implicit0 = doc.implicit@;
        let ghost d0 = *doc;
        let ghost pre = table_at(root0, c) && parts_open(d0, full, c.len() as int) && path_value(root0, full) is None;
        let mut path = copy_path(&doc.current);
        let count = keys.len();
        let mut i: usize = 0;
        assert(full.take(c.len() as int) =~= c);
        while i + 1 < count
            invariant
                self.wf(),
                start <= value_start <= self.pos,
                count == keys.len(),
                i < count || count == 0,
                i <= count,
                c == path_of(old(doc).current@),
                full == full_path(old(doc).current@, keys@),
                full.take(c.len() as int) == c,
                full.len() == c.len() + count,
                root0 == old(doc).root,
                frozen0 == old(doc).frozen@,
                doc.frozen@ == frozen0,
                doc.frozen == old(doc).frozen,
                doc.arrays == old(doc).arrays,
                doc.current == old(doc).current,
                doc.spans is Some <==> old(doc).spans is Some,
                path_of(path@) == full.take(c.len() + i),
                forall|q: Seq<Step>| parts_from(q, full) ==> #[trigger] path_value(doc.root, q) == path_value(root0, q),
                table_at(root0, c) ==> table_at(doc.root, full.take(c.len() + i)),
                i == 0 ==> doc.root == root0,
                path_value(root0, full.take(c.len() + i)) is Some ==> doc.root == root0,
                forall|n: int| c.len() < n <= c.len() + i ==> !holds_path(frozen0, #[trigger] full.take(n)),
                forall|n: int|
                    c.len() < n <= c.len() + i && path_value(root0, #[trigger] full.take(n)) is Some
                        ==> path_value(root0, full.take(n)) matches Some(Value::Table(_)),
                dotted0 == old(doc).dotted@,
                implicit0 == old(doc).implicit@,
                forall|n: int|
                    c.len() < n <= c.len() + i && path_value(root0, #[trigger] full.take(n)) is Some
                        ==> holds_path(dotted0, full.take(n)) || holds_path(implicit0, full.take(n)),
                forall|n: int| c.len() < n <= c.len() + i ==> holds_path(doc.dotted@, #[trigger] full.take(n)),
                forall|q: Seq<Step>|
                    (q.len() <= c.len() || q.len() > c.len() + i || q != full.take(q.len() as int)) ==> (
                    #[trigger] holds_path(doc.dotted@, q) == holds_path(dotted0, q) && holds_path(doc.implicit@, q)
                        == holds_path(implicit0, q)),
                d0.root == root0,
                d0.frozen@ == frozen0,
                d0.dotted@ == dotted0,
                d0.implicit@ == implicit0,
                pre == (table_at(root0, c) && parts_open(d0, full, c.len() as int) && path_value(root0, full) is None),
                table_at(root0, c) && i > 0 && path_value(root0, full.take(c.len() + i)) is None ==> (path_value(
                    doc.root,
                    full.take(c.len() + i),
                ) matches Some(Value::Table(t)) && t@.len() == 0),
            decreases count - i,
        {
            let ghost pb = path@;
            path.push(Seg::Key(keys[i].clone()));
            let ghost n = c.len() + i + 1;
            proof {
                lemma_full_path_take(doc.current@, keys@, pb, path@, i as int);
            }
            assert(path_value(root0, full.take(n)) is Some ==> doc.root == root0) by {
                if n - 1 > 0 {
                    lemma_prefix_exists(root0, full, n - 1, n);
                }
            }
            assert(table_at(root0, c) && path_value(root0, full.take(n)) is None ==> path_value(doc.root, full.take(n))
                is None) by {
                if table_at(root0, c) && path_value(root0, full.take(n)) is None {
                    lemma_still_missing(
                        root0,
                        doc.root,
                        full,
                        c.len() + i,
                        i > 0 && path_value(root0, full.take(c.len() + i)) is None,
                    );
                }
            }
            if set_contains(&doc.frozen, &path) {
                return Err(self.error_at(start, path_message("cannot add to `", &path, "`: it is an inline table")));
            }
            match doc.slot(&path) {
                Slot::Missing => {
                    let ghost before = doc.root;
                    proof {
                        if n - 1 > 0 {
                            lemma_prefix_exists(root0, full, n - 1, n);
                        }
                        assert(path_value(root0, full.take(n)) is None);
                    }
                    let nt = Table::new();
                    let ghost ntg = nt;
                    doc.insert_at(&path, Value::Table(nt));
                    proof {
                        lemma_grow_missing(before, doc.root, full, n, ntg, root0, c.len() as int);
                    }
                    assert(table_at(root0, c) ==> path_value(doc.root, full.take(n)) == Some(Value::Table(ntg))) by {
                        if table_at(root0, c) {
                            let pn = full.take(n);
                            assert(pn.take(n - 1) =~= full.take(n - 1));
                            if n - 1 > 0 {
                                lemma_path_value_root(before, full.take(n - 1));
                            }
                            lemma_applied_target(Value::Table(before), Value::Table(doc.root), pn, 0, Value::Table(ntg));
                            lemma_path_value_root(doc.root, pn);
                        }
                    }
                    set_insert(&mut doc.dotted, &path);
                },
                Slot::Table => {
                    if set_contains(&doc.dotted, &path) {
                    } else if set_remove(&mut doc.implicit, &path) {
                        // A table that a header only brought into being on its
                        // way somewhere deeper has been created but not
                        // defined, so a dotted key may still write into it.
                        // Doing so is what defines it, which is why no header
                        // may claim it afterwards.
                        set_insert(&mut doc.dotted, &path);
                    } else {
                        return Err(self.error_at(start, path_message("cannot add to `", &path, "` with a dotted key")));
                    }
                    proof {
                        if n - 1 > 0 {
                            lemma_prefix_exists(root0, full, n - 1, n);
                        }
                    }
                },
                _ => {
                    return Err(self.error_at(start, path_message("cannot add to `", &path, "` with a dotted key")));
                },
            }
            i += 1;
        }
        if count > 0 {
            let ghost pb = path@;
            path.push(Seg::Key(keys[count - 1].clone()));
            proof {
                lemma_full_path_take(doc.current@, keys@, pb, path@, (count - 1) as int);
            }
        }
        assert(path_of(path@) == full) by {
            assert(full.len() == c.len() + count);
            assert(full.take(full.len() as int) =~= full);
        }
        proof {
            if count > 1 && pre {
                assert(full.take(c.len() + i + 1) =~= full);
                lemma_still_missing(
                    root0,
                    doc.root,
                    full,
                    c.len() + i,
                    i > 0 && path_value(root0, full.take(c.len() + i)) is None,
                );
            }
        }
        proof {
            if count > 0 && c.len() + count - 1 > 0 {
                lemma_prefix_exists(root0, full, c.len() + count - 1, full.len() as int);
            }
        }
        if path.len() == 0 {
            return Ok(());
        }
        match doc.slot(&path) {
            Slot::Missing => {},
            _ => return Err(self.error_at(start, path_message("duplicate key `", &path, "`"))),
        }
        let ghost dotted1 = doc.dotted;
        let ghost implicit1 = doc.implicit;
        if value.is_table() {
            doc.freeze(&path, &value);
        } else {
            proof {
                lemma_nothing_within(value, full.len() as int);
            }
        }
        let ghost before = doc.root;
        doc.insert_at(&path, value);
        proof {
            lemma_stored(before, doc.root, full, value, root0, c.len() as int, count as int);
        }
        self.record_span(doc, &path, start, self.pos, value_start);
        assert forall|q: Seq<Step>|
            (q.len() <= c.len() || q.len() >= full.len() || q != full.take(q.len() as int)) implies (#[trigger] holds_path(
                doc.dotted@,
                q,
            ) == holds_path(dotted0, q) && holds_path(doc.implicit@, q) == holds_path(implicit0, q)) by {
            assert(doc.dotted == dotted1 && doc.implicit == implicit1);
            assert(holds_path(dotted1@, q) == holds_path(dotted0, q));
        }
        Ok(())
    }

    // ----- statements -----------------------------------------------------

    /// Parses `[table]` or `[[array of tables]]`.
    #[verifier::spinoff_prover]
    #[verifier::rlimit(40)]
    fn parse_header(&mut self, doc: &mut Document) -> (r: Result<(), Error>)
        requires
            old(self).wf(),
            old(self).depth == 0,
            old(self).pos < old(self).cs.len(),
            old(self).cs@[old(self).pos as int] == '[',
        ensures
            has_line(r),
            final(self).moved_from(&*old(self)),
            r is Ok ==> final(self).pos > old(self).pos,
            final(doc).spans is Some <==> old(doc).spans is Some,
            stmt_at(old(self).cs@, old(self).pos as int) matches Some((st, e)) ==> (step(built_of(*old(doc)), st) matches Some(
                b,
            ) ==> (r is Ok && final(self).pos == e && built_of(*final(doc)) == b)),
            stmt_at(old(self).cs@, old(self).pos as int) matches Some((st, e)) ==> (redefines(built_of(*old(doc)), st) ==> r is Err),
    {
        reveal(stmt_at);
        reveal(step);
        let start = self.pos;
        self.pos += 1;
        let is_array = self.peek() == Some('[');
        if is_array {
            self.pos += 1;
        }
        self.skip_spaces();
        let keys = self.parse_key()?;
        self.skip_spaces();
        if self.peek() != Some(']') {
            return Err(self.error_here(if is_array { "expected `]]`" } else { "expected `]`" }));
        }
        self.pos += 1;
        if is_array {
            if self.peek() != Some(']') {
                return Err(self.error_here("expected `]]`"));
            }
            self.pos += 1;
        }
        self.define_table(doc, keys, is_array, start)
    }

    /// Parses `key = value`.
    #[verifier::spinoff_prover]
    #[verifier::rlimit(60)]
    fn parse_keyval(&mut self, doc: &mut Document) -> (r: Result<(), Error>)
        requires
            old(self).wf(),
            old(self).depth == 0,
            old(self).pos < old(self).cs.len(),
            old(self).cs@[old(self).pos as int] != '[',
        ensures
            has_line(r),
            final(self).moved_from(&*old(self)),
            r is Ok ==> final(self).pos > old(self).pos,
            final(doc).spans is Some <==> old(doc).spans is Some,
            stmt_at(old(self).cs@, old(self).pos as int) matches Some((st, e)) ==> (
            (st matches Stmt::Pair(_, w) ==> nesting(w) <= MAX_DEPTH) ==> (step(built_of(*old(doc)), st) matches Some(b)
                ==> (r is Ok && final(self).pos == e && built_of(*final(doc)) == b))),
            stmt_at(old(self).cs@, old(self).pos as int) matches Some((st, e)) ==> (
            (st matches Stmt::Pair(_, w) ==> nesting(w) <= MAX_DEPTH) ==> (redefines(built_of(*old(doc)), st) ==> r is Err)),
    {
        reveal(stmt_at);
        reveal(step);
        let start = self.pos;
        let keys = self.parse_key()?;
        self.skip_spaces();
        if self.peek() != Some('=') {
            return Err(self.error_here("expected `=` after the key"));
        }
        self.pos += 1;
        self.skip_spaces();
        let value_start = self.pos;
        let value = self.parse_value()?;
        let ghost before = *doc;
        proof {
            if keys@.len() == 1 {
                lemma_full_path_one(doc.current@, keys@);
                lemma_tree_path(doc.root, full_path(doc.current@, keys@));
            }
        }
        proof {
            if keys@.len() == 1 {
                lemma_tree_path(doc.root, full_path(doc.current@, keys@));
            }
        }
        let r = self.insert_keyval(doc, keys, value, start, value_start);
        proof {
            if keys@.len() == 1 && r is Ok && pair_step(built_of(before), key_views(keys@), tree_of(value)) is Some {
                lemma_full_path_one(before.current@, keys@);
                assert forall|q: Seq<Step>| #[trigger] holds_path(doc.implicit@, q) == holds_path(before.implicit@, q) by {
                    assert(holds_path(doc.dotted@, q) == holds_path(before.dotted@, q));
                }
                lemma_pair_step(before, *doc, keys@, value);
            }
        }
        r
    }

    /// Parses the whole document into `doc`.
    #[verifier::spinoff_prover]
    pub(crate) fn parse_document(&mut self, doc: &mut Document) -> (r: Result<(), Error>)
        requires
            old(self).wf(),
            old(self).depth == 0,
            old(self).pos == 0,
        ensures
            has_line(r),
            final(doc).spans is Some <==> old(doc).spans is Some,
            doc_stmts(old(self).cs@, doc_start(old(self).cs@)) matches Some(stmts) ==> (stmts_fit(stmts) ==> (run(
                built_of(*old(doc)),
                stmts,
            ) matches Some(b) ==> (r is Ok && built_of(*final(doc)) == b))),
            doc_stmts(old(self).cs@, doc_start(old(self).cs@)) matches Some(stmts) ==> (stmts_fit(stmts) ==> (
            run_redefines(built_of(*old(doc)), stmts) ==> r is Err)),
    {
        let ghost s = self.cs@;
        // A leading byte order mark is not part of the document.
        if self.pos < self.cs.len() && self.cs[self.pos] == '\u{feff}' {
            self.pos += 1;
        }
        let ghost all = doc_stmts(s, self.pos as int);
        let ghost fin = run(built_of(*doc), all->Some_0);
        let ghost goal = all is Some && stmts_fit(all->Some_0) && fin is Some;
        let ghost twice = all is Some && stmts_fit(all->Some_0) && run_redefines(built_of(*doc), all->Some_0);
        proof {
            lemma_rests_start(s, self.pos as int, built_of(*doc));
            lemma_refuses_start(s, self.pos as int, built_of(*doc));
        }
        loop
            invariant
                self.wf(),
                self.depth == 0,
                s == self.cs@,
                s == old(self).cs@,
                doc.spans is Some <==> old(doc).spans is Some,
                all == doc_stmts(s, doc_start(s)),
                fin == run(built_of(*old(doc)), all->Some_0),
                goal == (all is Some && stmts_fit(all->Some_0) && fin is Some),
                goal ==> rests(s, self.pos as int, built_of(*doc), fin->Some_0),
                twice == (all is Some && stmts_fit(all->Some_0) && run_redefines(built_of(*old(doc)), all->Some_0)),
                twice ==> refuses(s, self.pos as int, built_of(*doc)),
            decreases self.cs.len() - self.pos,
        {
            let ghost p = self.pos as int;
            proof {
                if goal {
                    lemma_rests_trivia(s, p, built_of(*doc), fin->Some_0);
                }
                if twice {
                    lemma_refuses_trivia(s, p, built_of(*doc));
                }
            }
            self.skip_trivia()?;
            if self.pos >= self.cs.len() {
                proof {
                    if goal {
                        lemma_doc_end(s, p, self.pos as int, built_of(*doc), fin->Some_0);
                    }
                }
                return Ok(());
            }
            let ghost q = self.pos as int;
            proof {
                if goal {
                    lemma_doc_step(s, p, q, built_of(*doc), fin->Some_0);
                }
                if twice {
                    lemma_refuses_step(s, p, q, built_of(*doc));
                }
            }
            if self.peek() == Some('[') {
                self.parse_header(doc)?;
            } else {
                self.parse_keyval(doc)?;
            }
            self.finish_line()?;
        }
    }
}

} // verus!

verus! {

/// Whether the scalar read-back law covers `v`: a string, an integer, a
/// boolean, or a date-time of one of TOML's four kinds with every part in
/// range.
pub open spec fn plain_scalar(v: Value) -> bool {
    match v {
        Value::String(_) => true,
        Value::Integer(_) => true,
        Value::Boolean(_) => true,
        Value::Datetime(dt) => valid_datetime(dt),
        _ => false,
    }
}

/// Where a bare token ends, when it is known to end at `e`.
proof fn lemma_token_end_at(s: Seq<char>, j: int, e: int)
    requires
        0 <= j <= e <= s.len(),
        forall|k: int| j <= k < e ==> !(#[trigger] is_value_end(s[k])),
        e == s.len() || is_value_end(s[e]),
    ensures
        token_end(s, j) == e,
    decreases e - j,
{
    if j < e {
        lemma_token_end_at(s, j + 1, e);
    }
}

/// The first character of a written date-time is a digit.
pub(crate) proof fn lemma_datetime_starts_with_digit(dt: Datetime)
    requires
        valid_datetime(dt),
    ensures
        datetime_text(dt).len() > 0,
        is_digit(datetime_text(dt)[0]),
{
    assert(pow10(2) == 100) by {
        reveal_with_fuel(pow10, 3);
    }
    assert(pow10(4) == 10000) by {
        reveal_with_fuel(pow10, 5);
    }
    match dt.date {
        Some(d) => {
            lemma_pad_dec(d.year as nat, 4);
            assert(datetime_text(dt)[0] == pad_dec(d.year as nat, 4)[0]);
        },
        None => {
            let tm = dt.time->Some_0;
            lemma_pad_dec(tm.hour as nat, 2);
            assert(datetime_text(dt)[0] == pad_dec(tm.hour as nat, 2)[0]);
        },
    }
}

/// The read-back law for a string.
#[verifier::spinoff_prover]
#[verifier::rlimit(40)]
proof fn lemma_string_scalar(s: Seq<char>, rest: Seq<char>, read: Value, end: int)
    requires
        rest.len() == 0 || (is_value_end(rest[0]) && rest[0] != ' '),
    ensures
        !value_fails(string_literal(s) + rest, 0),
        value_text(string_literal(s) + rest, 0, read, end) ==> read is String && read->String_0@
            == s && end == string_literal(s).len(),
{
    let text = string_literal(s);
    let t = text + rest;
    law_string_reads_back(s, rest);
    assert(t[0] == '"');
    if s.len() == 0 {
        assert(escaped(s) =~= Seq::<char>::empty());
        assert(text =~= seq!['"', '"']);
        if t.len() > 2 {
            assert(t[2] == rest[0]);
        }
    } else {
        lemma_escaped_front(s[0], s.drop_first());
        assert(seq![s[0]] + s.drop_first() =~= s);
        assert(t[1] == escape_char(s[0])[0]);
        assert(t[1] != '"');
    }
}

/// The read-back law for an integer.
proof fn lemma_integer_scalar(i: i64, rest: Seq<char>, read: Value, end: int)
    requires
        rest.len() == 0 || (is_value_end(rest[0]) && rest[0] != ' '),
    ensures
        !value_fails(int_text(i as int) + rest, 0),
        value_text(int_text(i as int) + rest, 0, read, end) ==> read == Value::Integer(i) && end
            == int_text(i as int).len(),
{
    let text = int_text(i as int);
    let t = text + rest;
    let len = text.len() as int;
    law_integer_reads_back(i);
    let neg = i < 0;
    let n: nat = if neg { (-(i as int)) as nat } else { i as nat };
    lemma_dec_digits_are_digits(n);
    let d = dec_digits(n);
    if neg {
        assert(text =~= seq!['-'] + d);
    } else {
        assert(text == d);
    }
    assert forall|k: int| 0 <= k < len implies (k > 0 || !neg ==> is_digit(#[trigger] t[k])) && (k == 0 && neg ==> t[k] == '-') by {
        assert(t[k] == text[k]);
        if neg {
            if k > 0 {
                assert(text[k] == d[k - 1]);
                assert(is_digit(d[k - 1]));
            }
        } else {
            assert(is_digit(d[k]));
        }
    }
    assert forall|k: int| 0 <= k < len implies !(#[trigger] is_value_end(t[k])) by {
        if k > 0 || !neg {
            assert(is_digit(t[k]));
        }
    }
    if len < t.len() {
        assert(t[len] == rest[0]);
    }
    lemma_token_end_at(t, 0, len);
    assert(t.subrange(0, len) =~= text);
    assert(starts_number(t[0]));
    assert(!(t.len() - 0 >= 5 && t[4] == '-' && all_digits(t, 0, 4))) by {
        if t.len() >= 5 && t[4] == '-' && all_digits(t, 0, 4) {
            assert(is_digit(t[0]));
            if len >= 5 {
                assert(is_digit(t[4]));
            } else if len == 4 {
                assert(t[4] == rest[0]);
            } else {
                assert(t[len] == rest[0]);
                assert(is_digit(t[len]));
            }
        }
    }
    assert(!looks_like_time(t, 0)) by {
        if looks_like_time(t, 0) {
            assert(is_digit(t[0]));
            assert(is_digit(t[1]));
            if len >= 3 {
                assert(is_digit(t[2]));
            } else if len == 2 {
                assert(t[2] == rest[0]);
            } else {
                assert(t[1] == rest[0]);
            }
        }
    }
    assert(spec_scan(t, 0) == Ok::<Option<(Datetime, int)>, ScanError>(None));
}

/// The read-back law for a boolean.
proof fn lemma_bool_scalar(b: bool, rest: Seq<char>, read: Value, end: int)
    requires
        rest.len() == 0 || (is_value_end(rest[0]) && rest[0] != ' '),
    ensures
        !value_fails(bool_text(b) + rest, 0),
        value_text(bool_text(b) + rest, 0, read, end) ==> read == Value::Boolean(b) && end
            == bool_text(b).len(),
{
    let t = bool_text(b) + rest;
    reveal_strlit("true");
    reveal_strlit("false");
    if b {
        assert(t.subrange(0, 4) =~= "true"@);
        if t.len() > 4 {
            assert(t[4] == rest[0]);
        }
    } else {
        assert(t.subrange(0, 5) =~= "false"@);
        if t.len() > 5 {
            assert(t[5] == rest[0]);
        }
        assert(!starts_with_at(t, 0, "true"@)) by {
            if starts_with_at(t, 0, "true"@) {
                assert(t.subrange(0, 4)[0] == 't');
            }
        }
    }
}

/// The read-back law for a date-time.
proof fn lemma_datetime_scalar(dt: Datetime, rest: Seq<char>, read: Value, end: int)
    requires
        valid_datetime(dt),
        rest.len() == 0 || (is_value_end(rest[0]) && rest[0] != ' '),
    ensures
        !value_fails(datetime_text(dt) + rest, 0),
        value_text(datetime_text(dt) + rest, 0, read, end) ==> read == Value::Datetime(dt) && end
            == datetime_text(dt).len(),
{
    let text = datetime_text(dt);
    let t = text + rest;
    law_datetime_reads_back(Seq::empty(), dt, rest);
    assert(Seq::<char>::empty() + datetime_text(dt) + rest =~= datetime_text(dt) + rest);
    lemma_datetime_starts_with_digit(dt);
    assert(t[0] == text[0]);
    if text.len() < t.len() {
        assert(t[text.len() as int] == rest[0]);
    }
}

/// What the writer writes for a string, an integer, a boolean or a
/// date-time, the value reader reads back: it does not fail there, and
/// whatever value it reads is the one written, ending where its text ends.
/// What follows the text must be the end of the document or a character
/// that ends values (other than a space, which a date may be separated from
/// its time by).
pub proof fn law_scalar_reads_back(v: Value, rest: Seq<char>, read: Value, end: int)
    requires
        plain_scalar(v),
        rest.len() == 0 || (is_value_end(rest[0]) && rest[0] != ' '),
    ensures
        !value_fails(inline_text(v) + rest, 0),
        value_text(inline_text(v) + rest, 0, read, end) ==> value_eq(read, v) && end
            == inline_text(v).len(),
{
    match v {
        Value::String(s) => lemma_string_scalar(s@, rest, read, end),
        Value::Integer(i) => lemma_integer_scalar(i, rest, read, end),
        Value::Boolean(b) => lemma_bool_scalar(b, rest, read, end),
        Value::Datetime(dt) => lemma_datetime_scalar(dt, rest, read, end),
        _ => {},
    }
}

} // verus!
