//! Where each value was written in the source.

use vstd::prelude::*;

use std::ops::Range;

use crate::text::{str_chars, string_from_chars};

verus! {

/// The stretch of source a value came from.
#[derive(Debug, PartialEq, Eq)]
pub struct Span {
    /// Byte range of the whole `key = value` pair, or of the `[header]` line
    /// for a table.
    pub range: Range<usize>,
    /// Byte range of just the value. For a table header this is the same as
    /// `range`.
    pub value: Range<usize>,
    /// The 1-based line the pair starts on.
    pub line: usize,
    /// The 1-based column, counted in characters, the pair starts at.
    pub column: usize,
}

/// Where every value in a document was written, keyed by its dotted path:
/// key names joined with `.`, array elements as their index, the way
/// [`Error::key_path`](crate::error::Error::key_path) spells a path.
///
/// A key that itself contains a `.` cannot be told apart from a path.
#[derive(Debug)]
pub struct Spans {
    entries: Vec<(String, Span)>,
}

/// Whether no path occurs twice.
pub open spec fn distinct_paths(e: Seq<(Seq<char>, Span)>) -> bool {
    forall|i: int, j: int| 0 <= i < j < e.len() ==> #[trigger] e[i].0 != #[trigger] e[j].0
}

/// Whether a span is recorded for exactly the path `p`.
pub open spec fn has_path(e: Seq<(Seq<char>, Span)>, p: Seq<char>) -> bool {
    exists|i: int| 0 <= i < e.len() && #[trigger] e[i].0 == p
}

/// Where the span for `p` is recorded, if it is.
pub open spec fn path_index(e: Seq<(Seq<char>, Span)>, p: Seq<char>) -> int {
    choose|i: int| 0 <= i < e.len() && #[trigger] e[i].0 == p
}

/// The span recorded for exactly the path `p`, if any.
pub open spec fn span_of(e: Seq<(Seq<char>, Span)>, p: Seq<char>) -> Option<Span> {
    if has_path(e, p) {
        Some(e[path_index(e, p)].1)
    } else {
        None
    }
}

/// The position of the last `.` in `p[0..n]`, or -1 if there is none.
pub open spec fn last_dot(p: Seq<char>, n: int) -> int
    decreases n,
{
    if n <= 0 {
        -1
    } else if p[n - 1] == '.' {
        n - 1
    } else {
        last_dot(p, n - 1)
    }
}

/// The span for the prefix `p[0..n]`, or for the nearest enclosing path:
/// the prefix up to its last `.`, and so on.
pub open spec fn enclosing_span(e: Seq<(Seq<char>, Span)>, p: Seq<char>, n: int) -> Option<Span>
    decreases n,
{
    match span_of(e, p.take(n)) {
        Some(s) => Some(s),
        None => {
            let d = last_dot(p, n);
            if 0 <= d < n {
                enclosing_span(e, p, d)
            } else {
                None
            }
        },
    }
}

/// Whether `q` is `p` itself or the part of `p` before one of its dots:
/// the path of a value that encloses what `p` names.
pub open spec fn dot_prefix(q: Seq<char>, p: Seq<char>) -> bool {
    &&& q.len() <= p.len()
    &&& q == p.take(q.len() as int)
    &&& (q.len() == p.len() || p[q.len() as int] == '.')
}

/// `last_dot` finds a dot before `n`, or none at all.
proof fn lemma_last_dot(p: Seq<char>, n: int)
    requires
        0 <= n <= p.len(),
    ensures
        -1 <= last_dot(p, n) < n,
        last_dot(p, n) >= 0 ==> p[last_dot(p, n)] == '.',
    decreases n,
{
    if n > 0 && p[n - 1] != '.' {
        lemma_last_dot(p, n - 1);
    }
}

/// `last_dot` finds the last dot before `n`: none comes after it.
proof fn lemma_last_dot_is_last(p: Seq<char>, n: int, m: int)
    requires
        0 <= m < n <= p.len(),
        p[m] == '.',
    ensures
        m <= last_dot(p, n),
    decreases n,
{
    if p[n - 1] != '.' {
        lemma_last_dot_is_last(p, n - 1, m);
    }
}

/// Where the nearest recorded path at or before `n` ends at `m` (the whole
/// prefix, or the part before a dot), the fallback finds its span.
proof fn lemma_enclosing_at(e: Seq<(Seq<char>, Span)>, p: Seq<char>, n: int, m: int)
    requires
        0 <= m <= n <= p.len(),
        m == n || p[m] == '.',
        has_path(e, p.take(m)),
        forall|k: int| m < k <= n && (k == n || p[k] == '.') ==> !has_path(e, #[trigger] p.take(k)),
    ensures
        enclosing_span(e, p, n) == span_of(e, p.take(m)),
    decreases n,
{
    if m < n {
        assert(!has_path(e, p.take(n)));
        lemma_last_dot(p, n);
        lemma_last_dot_is_last(p, n, m);
        let d = last_dot(p, n);
        assert forall|k: int| m < k <= d && (k == d || p[k] == '.') implies !has_path(e, #[trigger] p.take(k)) by {
            assert(k < n && p[k] == '.');
        }
        lemma_enclosing_at(e, p, d, m);
    }
}

/// Where no path at or before `n` (the whole prefix, or a part before a
/// dot) is recorded, the fallback finds nothing.
proof fn lemma_enclosing_none(e: Seq<(Seq<char>, Span)>, p: Seq<char>, n: int)
    requires
        0 <= n <= p.len(),
        forall|k: int| 0 <= k <= n && (k == n || p[k] == '.') ==> !has_path(e, #[trigger] p.take(k)),
    ensures
        enclosing_span(e, p, n) is None,
    decreases n,
{
    assert(!has_path(e, p.take(n)));
    lemma_last_dot(p, n);
    let d = last_dot(p, n);
    if 0 <= d < n {
        assert forall|k: int| 0 <= k <= d && (k == d || p[k] == '.') implies !has_path(e, #[trigger] p.take(k)) by {
            assert(k < n && p[k] == '.');
        }
        lemma_enclosing_none(e, p, d);
    }
}

/// Looking up a path finds the nearest enclosing value that was recorded:
/// when `q` is recorded, and is `p` or the part of `p` before one of its
/// dots, and no longer such part of `p` is recorded, the lookup of `p` gives
/// the span recorded for `q`, however many dots separate them.
pub proof fn law_get_finds_nearest(e: Seq<(Seq<char>, Span)>, p: Seq<char>, q: Seq<char>)
    requires
        dot_prefix(q, p),
        has_path(e, q),
        forall|q2: Seq<char>| #[trigger] dot_prefix(q2, p) && q2.len() > q.len() ==> !has_path(e, q2),
    ensures
        enclosing_span(e, p, p.len() as int) == span_of(e, q),
        span_of(e, q) is Some,
{
    let m = q.len() as int;
    assert forall|k: int| m < k <= p.len() && (k == p.len() || p[k] == '.') implies !has_path(e, #[trigger] p.take(k)) by {
        assert(dot_prefix(p.take(k), p));
    }
    lemma_enclosing_at(e, p, p.len() as int, m);
}

/// Looking up a path none of whose enclosing paths was recorded, nor the
/// path itself, finds nothing.
pub proof fn law_get_finds_nothing(e: Seq<(Seq<char>, Span)>, p: Seq<char>)
    requires
        forall|q: Seq<char>| #[trigger] dot_prefix(q, p) ==> !has_path(e, q),
    ensures
        enclosing_span(e, p, p.len() as int) is None,
{
    assert forall|k: int| 0 <= k <= p.len() && (k == p.len() || p[k] == '.') implies !has_path(e, #[trigger] p.take(k)) by {
        assert(dot_prefix(p.take(k), p));
    }
    lemma_enclosing_none(e, p, p.len() as int);
}

impl View for Spans {
    type V = Seq<(Seq<char>, Span)>;

    closed spec fn view(&self) -> Seq<(Seq<char>, Span)> {
        self.entries@.map_values(|p: (String, Span)| (p.0@, p.1))
    }
}

impl Spans {
    #[verifier::type_invariant]
    closed spec fn wf(self) -> bool {
        distinct_paths(self@)
    }

    /// No spans at all.
    pub fn new() -> (s: Spans)
        ensures
            s@ == Seq::<(Seq<char>, Span)>::empty(),
    {
        let s = Spans { entries: Vec::new() };
        assert(s@ =~= Seq::<(Seq<char>, Span)>::empty());
        s
    }

    /// The position of exactly `path`, if recorded.
    fn position(&self, path: &str) -> (r: Option<usize>)
        ensures
            r matches Some(i) ==> i < self@.len() && self@[i as int].0 == path@ && path_index(self@, path@)
                == i && has_path(self@, path@),
            r is None ==> !has_path(self@, path@),
    {
        proof {
            use_type_invariant(self);
        }
        let wanted = path.to_owned();
        let mut i: usize = 0;
        while i < self.entries.len()
            invariant
                i <= self.entries.len(),
                distinct_paths(self@),
                wanted@ == path@,
                forall|j: int| 0 <= j < i ==> #[trigger] self@[j].0 != path@,
            decreases self.entries.len() - i,
        {
            if self.entries[i].0 == wanted {
                proof {
                    let e = self@;
                    assert(e[i as int].0 == path@);
                    let c = choose|k: int| 0 <= k < e.len() && #[trigger] e[k].0 == path@;
                    if c != i {
                        if c < i {
                            assert(e[c].0 != e[i as int].0);
                        } else {
                            assert(e[i as int].0 != e[c].0);
                        }
                    }
                }
                return Some(i);
            }
            i += 1;
        }
        None
    }

    /// Looks up the span for a dotted path.
    ///
    /// Spans are recorded for each key/value pair and each table header, so
    /// a path that points *inside* a value -- an array element, say -- has no
    /// span of its own. Rather than return nothing, this falls back to the
    /// nearest enclosing value, which is the one worth underlining anyway.
    pub fn get(&self, path: &str) -> (r: Option<&Span>)
        ensures
            r matches Some(s) ==> enclosing_span(self@, path@, path@.len() as int) == Some(*s),
            r is None ==> enclosing_span(self@, path@, path@.len() as int) is None,
            forall|q: Seq<char>|
                #[trigger] dot_prefix(q, path@) && has_path(self@, q) && (forall|q2: Seq<char>|
                    #[trigger] dot_prefix(q2, path@) && q2.len() > q.len() ==> !has_path(self@, q2)) ==> (r matches Some(
                    s,
                ) && span_of(self@, q) == Some(*s)),
            (forall|q: Seq<char>| #[trigger] dot_prefix(q, path@) ==> !has_path(self@, q)) ==> r is None,
    {
        proof {
            assert forall|q: Seq<char>|
                #[trigger] dot_prefix(q, path@) && has_path(self@, q) && (forall|q2: Seq<char>|
                    #[trigger] dot_prefix(q2, path@) && q2.len() > q.len() ==> !has_path(self@, q2)) implies span_of(
                self@,
                q,
            ) is Some && enclosing_span(self@, path@, path@.len() as int) == span_of(self@, q) by {
                law_get_finds_nearest(self@, path@, q);
            }
            if forall|q: Seq<char>| #[trigger] dot_prefix(q, path@) ==> !has_path(self@, q) {
                law_get_finds_nothing(self@, path@);
            }
        }
        let cs = str_chars(path);
        let mut n = cs.len();
        loop
            invariant
                cs@ == path@,
                n <= cs.len(),
                enclosing_span(self@, path@, path@.len() as int) == enclosing_span(self@, path@, n as int),
                forall|q: Seq<char>|
                    #[trigger] dot_prefix(q, path@) && has_path(self@, q) && (forall|q2: Seq<char>|
                        #[trigger] dot_prefix(q2, path@) && q2.len() > q.len() ==> !has_path(self@, q2)) ==> span_of(
                        self@,
                        q,
                    ) is Some && enclosing_span(self@, path@, path@.len() as int) == span_of(self@, q),
                (forall|q: Seq<char>| #[trigger] dot_prefix(q, path@) ==> !has_path(self@, q)) ==> enclosing_span(
                    self@,
                    path@,
                    path@.len() as int,
                ) is None,
            decreases n,
        {
            let prefix = string_from_chars(&cs, 0, n);
            assert(prefix@ == path@.take(n as int));
            match self.position(prefix.as_str()) {
                Some(i) => return Some(&self.entries[i].1),
                None => {},
            }
            proof {
                lemma_last_dot(path@, n as int);
            }
            let mut d = n;
            while d > 0 && cs[d - 1] != '.'
                invariant
                    cs@ == path@,
                    d <= n <= cs.len(),
                    last_dot(path@, d as int) == last_dot(path@, n as int),
                decreases d,
            {
                d -= 1;
            }
            if d == 0 {
                return None;
            }
            n = d - 1;
        }
    }

    /// Looks up the span for a path, without falling back to an enclosing one.
    pub fn get_exact(&self, path: &str) -> (r: Option<&Span>)
        ensures
            r matches Some(s) ==> span_of(self@, path@) == Some(*s),
            r is None ==> span_of(self@, path@) is None,
    {
        match self.position(path) {
            Some(i) => Some(&self.entries[i].1),
            None => None,
        }
    }

    /// The number of recorded spans.
    pub fn len(&self) -> (n: usize)
        ensures
            n == self@.len(),
    {
        self.entries.len()
    }

    /// Whether nothing was recorded.
    pub fn is_empty(&self) -> (b: bool)
        ensures
            b == (self@.len() == 0),
    {
        self.entries.len() == 0
    }

    /// Every path and its span.
    pub fn iter(&self) -> (r: Vec<(&str, &Span)>)
        ensures
            r@.len() == self@.len(),
            forall|i: int|
                0 <= i < r@.len() ==> (#[trigger] r@[i]).0@ == self@[i].0 && *r@[i].1 == self@[i].1,
    {
        let mut r: Vec<(&str, &Span)> = Vec::new();
        let mut i: usize = 0;
        while i < self.entries.len()
            invariant
                i <= self.entries.len(),
                r@.len() == i,
                forall|j: int|
                    0 <= j < i ==> (#[trigger] r@[j]).0@ == self@[j].0 && *r@[j].1 == self@[j].1,
            decreases self.entries.len() - i,
        {
            r.push((self.entries[i].0.as_str(), &self.entries[i].1));
            i += 1;
        }
        r
    }

    /// Records the span of `path`, replacing any earlier one in place; a
    /// new path goes last.
    pub fn record(&mut self, path: String, span: Span)
        ensures
            final(self)@ == recorded(old(self)@, path@, span),
    {
        proof {
            use_type_invariant(&*self);
        }
        let found = self.position(path.as_str());
        let mut entries: Vec<(String, Span)> = Vec::new();
        std::mem::swap(&mut entries, &mut self.entries);
        let ghost k = path@;
        match found {
            Some(i) => {
                entries.remove(i);
                entries.insert(i, (path, span));
                let ghost e = entries@.map_values(|p: (String, Span)| (p.0@, p.1));
                assert(e =~= old(self)@.update(i as int, (k, span)));
                proof {
                    assert forall|a: int, b: int| 0 <= a < b < e.len() implies #[trigger] e[a].0
                        != #[trigger] e[b].0 by {
                        assert(old(self)@[a].0 != old(self)@[b].0);
                    }
                }
            },
            None => {
                entries.push((path, span));
                let ghost e = entries@.map_values(|p: (String, Span)| (p.0@, p.1));
                assert(e =~= old(self)@.push((k, span)));
                proof {
                    assert forall|a: int, b: int| 0 <= a < b < e.len() implies #[trigger] e[a].0
                        != #[trigger] e[b].0 by {
                        if b == e.len() - 1 {
                            assert(old(self)@[a].0 != k);
                        } else {
                            assert(old(self)@[a].0 != old(self)@[b].0);
                        }
                    }
                }
            },
        }
        self.entries = entries;
    }
}

impl Default for Spans {
    /// No spans at all.
    fn default() -> (s: Spans)
        ensures
            s@ == Seq::<(Seq<char>, Span)>::empty(),
    {
        Spans::new()
    }
}

} // verus!

verus! {

/// The spans after `s` is recorded for `p`: replacing the earlier span in
/// place, or appended.
pub open spec fn recorded(e: Seq<(Seq<char>, Span)>, p: Seq<char>, s: Span) -> Seq<(Seq<char>, Span)> {
    if has_path(e, p) {
        e.update(path_index(e, p), (p, s))
    } else {
        e.push((p, s))
    }
}

/// Where `p` sits among spans without repeated paths, when it is at `j`.
proof fn lemma_path_at(e: Seq<(Seq<char>, Span)>, j: int, p: Seq<char>)
    requires
        distinct_paths(e),
        0 <= j < e.len(),
        e[j].0 == p,
    ensures
        has_path(e, p),
        path_index(e, p) == j,
        span_of(e, p) == Some(e[j].1),
{
    assert(has_path(e, p));
    let c = path_index(e, p);
    if c != j {
        if c < j {
            assert(e[c].0 != e[j].0);
        } else {
            assert(e[j].0 != e[c].0);
        }
    }
}

/// Reading back a record: the span recorded for a path is the one found for
/// it exactly, and every other path finds what it found before.
pub proof fn law_span_after_record(e: Seq<(Seq<char>, Span)>, p: Seq<char>, s: Span, other: Seq<char>)
    requires
        distinct_paths(e),
    ensures
        distinct_paths(recorded(e, p, s)),
        span_of(recorded(e, p, s), p) == Some(s),
        other != p ==> span_of(recorded(e, p, s), other) == span_of(e, other),
{
    let e2 = recorded(e, p, s);
    let n = e.len() as int;
    if has_path(e, p) {
        let i = path_index(e, p);
        assert forall|a: int, b: int| 0 <= a < b < e2.len() implies #[trigger] e2[a].0 != #[trigger] e2[b].0 by {
            assert(e[a].0 != e[b].0);
        }
        lemma_path_at(e2, i, p);
    } else {
        assert forall|a: int, b: int| 0 <= a < b < e2.len() implies #[trigger] e2[a].0 != #[trigger] e2[b].0 by {
            if b == n {
                assert(e[a].0 != p);
            } else {
                assert(e[a].0 != e[b].0);
            }
        }
        lemma_path_at(e2, n, p);
    }
    if other != p {
        if has_path(e, other) {
            let j = path_index(e, other);
            lemma_path_at(e2, j, other);
        } else if has_path(e2, other) {
            let j = path_index(e2, other);
            assert(j < n);
            assert(e[j].0 == other);
        }
    }
}

} // verus!
