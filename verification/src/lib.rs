//! A TOML 1.1 parser and serializer.
//!
//! [`parse`] turns a document into a [`Table`], an insertion-ordered map of
//! [`Value`]s; [`to_string`] and [`to_string_pretty`] write one back out.
//! Parsing and serializing round-trip: key order, and the shape of tables
//! and arrays of tables, are preserved. Formatting is not -- comments, blank
//! lines and the choice between a header and an inline table belong to the
//! document, not to the value model.
//!
//! [`parse_spans`] also reports where each value was written, so a value
//! that turns out to be wrong later can be pointed back at its line and
//! column.

use vstd::prelude::*;

pub mod text;
pub mod error;
pub mod grammar;
pub mod datetime;
pub mod map;
pub mod model;
pub mod number;
pub mod parser;
pub mod readback;
pub mod ser;
pub mod span;
pub mod value;

pub use crate::datetime::{Date, Datetime, DatetimeKind, Offset, Time};
pub use crate::error::Error;
pub use crate::map::{Entry, OccupiedEntry, Table, VacantEntry};
pub use crate::ser::{to_string, to_string_pretty};
pub use crate::span::{Span, Spans};
pub use crate::value::{Float, Value};

use crate::parser::{Document, Parser, has_line};
use crate::model::{document_tree, defines_twice};
use crate::value::tree_of;
use crate::text::{str_chars, utf8_text};
use vstd::utf8::{valid_utf8, decode_utf8};
use crate::parser::{newlines_before, line_start_of};

verus! {

/// Parses a document, recording spans when asked to.
fn parse_document(input: &str, spans: bool) -> (r: Result<Document, Error>)
    ensures
        r matches Ok(d) ==> (d.spans is Some <==> spans),
        input@.len() < usize::MAX ==> has_line(r),
        input@.len() < usize::MAX ==> (document_tree(input@) matches Some(w) ==> (r matches Ok(d) && tree_of(
            Value::Table(d.root),
        ) == w)),
        defines_twice(input@) ==> r is Err,
{
    let cs = str_chars(input);
    if cs.len() == usize::MAX {
        return Err(Error::fixed("input is too long"));
    }
    let mut parser = Parser::new(cs);
    let mut doc = Document::new(spans);
    parser.parse_document(&mut doc)?;
    Ok(doc)
}

/// Parses a TOML document.
///
/// A document that is refused is answered with an error that points at the
/// line, and the column within it, where the problem was found.
pub fn parse(input: &str) -> (r: Result<Table, Error>)
    ensures
        input@.len() < usize::MAX ==> has_line(r),
        input@.len() < usize::MAX ==> (document_tree(input@) matches Some(w) ==> (r matches Ok(t) && tree_of(
            Value::Table(t),
        ) == w)),
        defines_twice(input@) ==> r is Err,
{
    let doc = parse_document(input, false)?;
    Ok(doc.root)
}

/// Parses a TOML document, also reporting where each value was written.
///
/// The [`Spans`] are keyed by dotted path, the same way
/// [`Error::key_path`] spells one, so a value that later turns out to be
/// wrong can be pointed back at its place in the source. Recording them
/// costs a little time and memory, which is why [`parse`] does not.
pub fn parse_spans(input: &str) -> (r: Result<(Table, Spans), Error>)
    ensures
        input@.len() < usize::MAX ==> has_line(r),
        input@.len() < usize::MAX ==> (document_tree(input@) matches Some(w) ==> (r matches Ok((t, _)) && tree_of(
            Value::Table(t),
        ) == w)),
        defines_twice(input@) ==> r is Err,
{
    let doc = parse_document(input, true)?;
    match doc.spans {
        Some(spans) => Ok((doc.root, spans)),
        None => Ok((doc.root, Spans::new())),
    }
}

/// Parses a TOML document from bytes, which must be UTF-8. When they are
/// not, the error points at the first byte that is not, in the same shape
/// as a syntax error.
pub fn parse_bytes(input: &[u8]) -> (r: Result<Table, Error>)
    ensures
        valid_utf8(input@) && decode_utf8(input@).len() < usize::MAX ==> has_line(r),
        valid_utf8(input@) && decode_utf8(input@).len() < usize::MAX ==> (document_tree(decode_utf8(input@)) matches Some(
            w,
        ) ==> (r matches Ok(t) && tree_of(Value::Table(t)) == w)),
        valid_utf8(input@) && defines_twice(decode_utf8(input@)) ==> r is Err,
        !valid_utf8(input@) ==> r is Err && r->Err_0@.message == "input is not valid UTF-8"@,
        !valid_utf8(input@) ==> ({
            let e = r->Err_0@;
            let n = e.offset as int;
            let text = decode_utf8(input@.take(n));
            &&& n <= input@.len()
            &&& valid_utf8(input@.take(n))
            &&& forall|m: int| n < m <= input@.len() ==> !valid_utf8(#[trigger] input@.take(m))
            &&& e.path.len() == 0
            &&& text.len() < usize::MAX ==> e.line == newlines_before(text, text.len() as int) + 1 && e.column
                == text.len() - line_start_of(text, text.len() as int) + 1
        }),
{
    match utf8_text(input) {
        Ok(text) => parse(text),
        Err(offset) => {
            let prefix = vstd::slice::slice_subrange(input, 0, offset);
            assert(prefix@ =~= input@.take(offset as int));
            let (line, column) = match utf8_text(prefix) {
                Ok(valid) => {
                    let cs = str_chars(valid);
                    if cs.len() < usize::MAX {
                        let n = cs.len();
                        Parser::new(cs).position(n)
                    } else {
                        (0, 0)
                    }
                },
                Err(_) => (0, 0),
            };
            Err(Error::parse("input is not valid UTF-8".to_owned(), line, column, offset))
        },
    }
}

impl std::str::FromStr for Table {
    type Err = Error;

    /// Parses a TOML document; the same as [`parse`].
    fn from_str(s: &str) -> (r: Result<Table, Error>)
        ensures
            s@.len() < usize::MAX ==> has_line(r),
            s@.len() < usize::MAX ==> (document_tree(s@) matches Some(w) ==> (r matches Ok(t) && tree_of(
                Value::Table(t),
            ) == w)),
            defines_twice(s@) ==> r is Err,
    {
        parse(s)
    }
}

} // verus!
