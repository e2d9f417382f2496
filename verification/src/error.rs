//! The error type returned by parsing and by mapping documents onto types.

use vstd::prelude::*;

use crate::text::{int_text, push_char, push_decimal, push_str, dec_digits};

verus! {

/// An error produced while parsing or serializing TOML.
///
/// Parse errors carry the 1-based line and column (counted in characters) at
/// which the problem was found, plus the byte offset into the input. Errors
/// that are not tied to a position report a line of `0`.
///
/// Errors raised while mapping a document onto another type instead carry the
/// key path of the value that would not fit.
#[derive(Debug, Clone, PartialEq, Eq)]
pub struct Error {
    message: String,
    line: usize,
    column: usize,
    offset: usize,
    /// The keys, outermost first, leading to the value this error is about.
    path: Vec<String>,
}

/// What an error holds, as mathematical values.
pub struct ErrorView {
    pub message: Seq<char>,
    pub line: nat,
    pub column: nat,
    pub offset: nat,
    pub path: Seq<Seq<char>>,
}

impl View for Error {
    type V = ErrorView;

    closed spec fn view(&self) -> ErrorView {
        ErrorView {
            message: self.message@,
            line: self.line as nat,
            column: self.column as nat,
            offset: self.offset as nat,
            path: self.path@.map_values(|k: String| k@),
        }
    }
}

/// Joins `parts` with `sep` between each two of them.
pub open spec fn join(parts: Seq<Seq<char>>, sep: Seq<char>) -> Seq<char>
    decreases parts.len(),
{
    if parts.len() == 0 {
        Seq::empty()
    } else if parts.len() == 1 {
        parts[0]
    } else {
        join(parts.drop_last(), sep) + sep + parts.last()
    }
}

/// The text `Display` shows for an error.
pub open spec fn error_text(e: ErrorView) -> Seq<char> {
    if e.line != 0 {
        "TOML parse error at line "@ + dec_digits(e.line) + ", column "@ + dec_digits(e.column)
            + ": "@ + e.message
    } else if e.path.len() > 0 {
        "TOML error at `"@ + join(e.path, seq!['.']) + "`: "@ + e.message
    } else {
        e.message
    }
}

impl Error {
    /// Builds an error anchored at a position in the source document.
    pub fn parse(message: String, line: usize, column: usize, offset: usize) -> (e: Error)
        ensures
            e@.message == message@,
            e@.line == line,
            e@.column == column,
            e@.offset == offset,
            e@.path == Seq::<Seq<char>>::empty(),
    {
        let e = Error { message, line, column, offset, path: Vec::new() };
        assert(e@.path =~= Seq::<Seq<char>>::empty());
        e
    }

    /// Builds an error that is not tied to a position in a document.
    pub fn custom(message: String) -> (e: Error)
        ensures
            e@.message == message@,
            e@.line == 0,
            e@.column == 0,
            e@.offset == 0,
            e@.path == Seq::<Seq<char>>::empty(),
    {
        Error::parse(message, 0, 0, 0)
    }

    /// Builds an error with a fixed message and no position.
    pub fn fixed(message: &str) -> (e: Error)
        ensures
            e@.message == message@,
            e@.line == 0,
            e@.column == 0,
            e@.offset == 0,
            e@.path == Seq::<Seq<char>>::empty(),
    {
        Error::custom(message.to_owned())
    }

    /// Records that this error is about a value found under `key`; the
    /// outermost key ends up first.
    pub fn prepend_key(&mut self, key: String)
        ensures
            final(self)@.message == old(self)@.message,
            final(self)@.line == old(self)@.line,
            final(self)@.column == old(self)@.column,
            final(self)@.offset == old(self)@.offset,
            final(self)@.path == seq![key@] + old(self)@.path,
    {
        let ghost k = key@;
        self.path.insert(0, key);
        assert(self@.path =~= seq![k] + old(self)@.path);
    }

    /// The description of what went wrong, without any position prefix.
    pub fn message(&self) -> (m: &str)
        ensures
            m@ == self@.message,
    {
        self.message.as_str()
    }

    /// The 1-based line at which the error was detected, or `0` if the error is
    /// not tied to a position.
    pub fn line(&self) -> (l: usize)
        ensures
            l == self@.line,
    {
        self.line
    }

    /// The 1-based column, counted in characters, or `0` if the error is not
    /// tied to a position.
    pub fn column(&self) -> (c: usize)
        ensures
            c == self@.column,
    {
        self.column
    }

    /// The byte offset into the input at which the error was detected, or `0`
    /// if the error is not tied to a position.
    pub fn offset(&self) -> (o: usize)
        ensures
            o == self@.offset,
    {
        self.offset
    }

    /// Whether this error points at a specific location in a document.
    pub fn has_position(&self) -> (b: bool)
        ensures
            b == (self@.line != 0),
    {
        self.line != 0
    }

    /// The dotted path of the key whose value this error is about, if any.
    pub fn key_path(&self) -> (p: Option<String>)
        ensures
            self@.path.len() == 0 ==> p is None,
            self@.path.len() > 0 ==> p is Some && p->0@ == join(self@.path, seq!['.']),
    {
        if self.path.len() == 0 {
            None
        } else {
            let mut out = String::new();
            let mut i: usize = 0;
            while i < self.path.len()
                invariant
                    0 <= i <= self.path.len(),
                    self.path.len() > 0,
                    i == 0 ==> out@ == Seq::<char>::empty(),
                    i > 0 ==> out@ == join(self@.path.take(i as int), seq!['.']),
                decreases self.path.len() - i,
            {
                let ghost before = out@;
                if i > 0 {
                    push_char(&mut out, '.');
                }
                push_str(&mut out, self.path[i].as_str());
                proof {
                    let parts = self@.path.take(i + 1);
                    assert(parts.drop_last() =~= self@.path.take(i as int));
                    assert(parts.last() == self.path[i as int]@);
                    if i == 0 {
                        assert(parts.len() == 1);
                        assert(out@ =~= parts[0]);
                    } else {
                        assert(out@ =~= before + seq!['.'] + parts.last());
                    }
                }
                i += 1;
            }
            assert(self@.path.take(self.path.len() as int) =~= self@.path);
            Some(out)
        }
    }

    /// The text shown for this error: the position or key path, then the
    /// message.
    pub fn to_string(&self) -> (s: String)
        ensures
            s@ == error_text(self@),
    {
        let mut out = String::new();
        if self.line != 0 {
            push_str(&mut out, "TOML parse error at line ");
            push_decimal(&mut out, self.line as u64);
            push_str(&mut out, ", column ");
            push_decimal(&mut out, self.column as u64);
            push_str(&mut out, ": ");
            push_str(&mut out, self.message.as_str());
            assert(out@ =~= error_text(self@));
        } else if self.path.len() > 0 {
            push_str(&mut out, "TOML error at `");
            let path = self.key_path();
            match path {
                Some(p) => push_str(&mut out, p.as_str()),
                None => {},
            }
            push_str(&mut out, "`: ");
            push_str(&mut out, self.message.as_str());
            assert(out@ =~= error_text(self@));
        } else {
            push_str(&mut out, self.message.as_str());
            assert(out@ =~= error_text(self@));
        }
        out
    }
}

} // verus!
