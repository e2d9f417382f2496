//! The TOML value model.

use vstd::prelude::*;

use crate::datetime::{Date, Datetime, Time};
use crate::map::{Table, has_key, key_index, lemma_entry_decreases, lookup};
use crate::number::{float_literal, parse_number_token, spec_number, Number};
use crate::ser::{inline_text, write_value};
use crate::text::{char_digit, dec_value, digit_val, is_digit, str_chars, string_from_chars};

verus! {

/// A TOML float, held as the canonical literal that denotes it: an optional
/// `-`, the digits with their underscores removed, an optional fraction and
/// an optional exponent; or `inf`, `-inf`, `nan` or `-nan`.
///
/// Keeping the literal rather than a machine float means a document always
/// reads back to the very value it was written from.
#[derive(Debug)]
pub struct Float {
    text: String,
}

impl View for Float {
    type V = Seq<char>;

    closed spec fn view(&self) -> Seq<char> {
        self.text@
    }
}

impl Float {
    #[verifier::type_invariant]
    closed spec fn wf(self) -> bool {
        float_literal(self.text@) && spec_number(self.text@) == Some(Number::Float(self.text@))
    }

    /// Builds a float from a canonical literal, which must already be valid
    /// and read back as itself.
    pub(crate) fn from_canonical(text: String) -> (f: Float)
        requires
            float_literal(text@),
            spec_number(text@) == Some(Number::Float(text@)),
        ensures
            f@ == text@,
    {
        Float { text }
    }

    /// The literal, which is always valid TOML float syntax.
    pub fn as_str(&self) -> (s: &str)
        ensures
            s@ == self@,
            float_literal(s@),
    {
        proof {
            use_type_invariant(self);
        }
        self.text.as_str()
    }

    /// The float a TOML float literal denotes, such as `6.626e-34`, `1_000.5`
    /// or `-inf`; `None` for text that is not one (an integer is not).
    pub fn new(text: &str) -> (r: Option<Float>)
        ensures
            r matches Some(f) ==> spec_number(text@) == Some(Number::Float(f@)),
            r is None ==> !(spec_number(text@) matches Some(Number::Float(_))),
    {
        let cs = str_chars(text);
        match parse_number_token(&cs) {
            Ok(v) => match v {
                Value::Float(f) => Some(f),
                _ => None,
            },
            Err(_) => None,
        }
    }

    /// A copy of this float.
    pub fn copy(&self) -> (f: Float)
        ensures
            f@ == self@,
    {
        proof {
            use_type_invariant(self);
        }
        Float { text: self.text.clone() }
    }

    /// Every float's literal is valid TOML float syntax, and reads back as
    /// that very float; a no-op that makes these facts known.
    pub fn literal_is_valid(&self)
        ensures
            float_literal(self@),
            spec_number(self@) == Some(Number::Float(self@)),
    {
        proof {
            use_type_invariant(self);
        }
    }
}

/// Any TOML value.
#[derive(Debug)]
pub enum Value {
    /// A string.
    String(String),
    /// A 64-bit signed integer.
    Integer(i64),
    /// A float, held as its canonical literal.
    Float(Float),
    /// A boolean.
    Boolean(bool),
    /// A date-time, in one of TOML's four flavours.
    Datetime(Datetime),
    /// An array. TOML arrays may mix value types.
    Array(Vec<Value>),
    /// A table.
    Table(Table),
}

/// A value as a mathematical object: what a piece of text reads as, with
/// the entries of a table in their order.
pub enum Tree {
    Str(Seq<char>),
    Int(int),
    Float(Seq<char>),
    Bool(bool),
    Dt(Datetime),
    Arr(Seq<Tree>),
    Tab(Seq<(Seq<char>, Tree)>),
}

/// The mathematical object a value is.
pub open spec fn tree_of(v: Value) -> Tree
    decreases v, 0int, 0int,
{
    match v {
        Value::String(s) => Tree::Str(s@),
        Value::Integer(i) => Tree::Int(i as int),
        Value::Float(f) => Tree::Float(f@),
        Value::Boolean(b) => Tree::Bool(b),
        Value::Datetime(d) => Tree::Dt(d),
        Value::Array(a) => Tree::Arr(trees_of(a@)),
        Value::Table(t) => Tree::Tab(entry_trees(t, 0)),
    }
}

/// The mathematical objects some values are.
pub open spec fn trees_of(a: Seq<Value>) -> Seq<Tree>
    decreases a, 1int, 0int,
{
    if a.len() == 0 {
        Seq::empty()
    } else {
        seq![tree_of(a[0])] + trees_of(a.drop_first())
    }
}

/// The entries of a table from position `j` on, their values as
/// mathematical objects.
pub open spec fn entry_trees(t: Table, j: int) -> Seq<(Seq<char>, Tree)>
    decreases t, 1int, t@.len() - j,
{
    if j < 0 || j >= t@.len() {
        Seq::empty()
    } else {
        proof {
            lemma_entry_decreases(t, j);
        }
        seq![(t@[j].0, tree_of(t@[j].1))] + entry_trees(t, j + 1)
    }
}

/// Entries with their values as mathematical objects.
pub open spec fn entries_view(e: Seq<(Seq<char>, Value)>) -> Seq<(Seq<char>, Tree)> {
    Seq::new(e.len(), |j: int| (e[j].0, tree_of(e[j].1)))
}

/// Values as mathematical objects, one by one.
pub proof fn lemma_trees_of(a: Seq<Value>)
    ensures
        trees_of(a) == a.map_values(|x: Value| tree_of(x)),
    decreases a.len(),
{
    if a.len() > 0 {
        lemma_trees_of(a.drop_first());
        assert(trees_of(a) =~= a.map_values(|x: Value| tree_of(x)));
    } else {
        assert(trees_of(a) =~= a.map_values(|x: Value| tree_of(x)));
    }
}

/// A table's entries as mathematical objects, from position `j` on.
proof fn lemma_entry_trees_from(t: Table, j: int)
    requires
        0 <= j <= t@.len(),
    ensures
        entry_trees(t, j) == entries_view(t@).skip(j),
    decreases t@.len() - j,
{
    if j < t@.len() {
        lemma_entry_trees_from(t, j + 1);
        assert(entry_trees(t, j) =~= entries_view(t@).skip(j));
    } else {
        assert(entry_trees(t, j) =~= entries_view(t@).skip(j));
    }
}

/// A table as a mathematical object: its entries, one by one.
pub proof fn lemma_table_tree(t: Table)
    ensures
        tree_of(Value::Table(t)) == Tree::Tab(entries_view(t@)),
{
    lemma_entry_trees_from(t, 0);
    assert(entries_view(t@).skip(0) =~= entries_view(t@));
}

impl Value {
    /// The name of this value's type, as TOML calls it.
    pub fn kind_name(&self) -> (s: &'static str)
        ensures
            s@ == kind_name_of(*self),
    {
        match self {
            Value::String(..) => "string",
            Value::Integer(..) => "integer",
            Value::Float(..) => "float",
            Value::Boolean(..) => "boolean",
            Value::Datetime(..) => "datetime",
            Value::Array(..) => "array",
            Value::Table(..) => "table",
        }
    }

    /// Returns the string, or `None` if this is not a string.
    pub fn as_str(&self) -> (r: Option<&str>)
        ensures
            *self matches Value::String(s) ==> r is Some && r->0@ == s@,
            !(self is String) ==> r is None,
    {
        match self {
            Value::String(s) => Some(s.as_str()),
            _ => None,
        }
    }

    /// Returns the integer, or `None` if this is not an integer.
    pub fn as_integer(&self) -> (r: Option<i64>)
        ensures
            *self matches Value::Integer(i) ==> r == Some(i),
            !(self is Integer) ==> r is None,
    {
        match self {
            Value::Integer(i) => Some(*i),
            _ => None,
        }
    }

    /// Returns the float, or `None` if this is not a float. Integers are not
    /// converted; TOML keeps the two types apart.
    pub fn as_float(&self) -> (r: Option<&Float>)
        ensures
            *self matches Value::Float(f) ==> r is Some && *r->0 == f,
            !(self is Float) ==> r is None,
    {
        match self {
            Value::Float(f) => Some(f),
            _ => None,
        }
    }

    /// Returns the boolean, or `None` if this is not a boolean.
    pub fn as_bool(&self) -> (r: Option<bool>)
        ensures
            *self matches Value::Boolean(b) ==> r == Some(b),
            !(self is Boolean) ==> r is None,
    {
        match self {
            Value::Boolean(b) => Some(*b),
            _ => None,
        }
    }

    /// Returns the date-time, or `None` if this is not a date-time.
    pub fn as_datetime(&self) -> (r: Option<&Datetime>)
        ensures
            *self matches Value::Datetime(d) ==> r is Some && *r->0 == d,
            !(self is Datetime) ==> r is None,
    {
        match self {
            Value::Datetime(dt) => Some(dt),
            _ => None,
        }
    }

    /// Returns the array, or `None` if this is not an array.
    pub fn as_array(&self) -> (r: Option<&Vec<Value>>)
        ensures
            *self matches Value::Array(a) ==> r is Some && *r->0 == a,
            !(self is Array) ==> r is None,
    {
        match self {
            Value::Array(a) => Some(a),
            _ => None,
        }
    }

    /// Returns the array mutably, or `None` if this is not an array.
    pub fn as_array_mut(&mut self) -> (r: Option<&mut Vec<Value>>)
        ensures
            match *old(self) {
                Value::Array(a) => r is Some && *r->0 == a && *final(self) == Value::Array(*final(r->0)),
                _ => r is None && *final(self) == *old(self),
            },
    {
        match self {
            Value::Array(a) => Some(a),
            _ => None,
        }
    }

    /// Returns the table, or `None` if this is not a table.
    pub fn as_table(&self) -> (r: Option<&Table>)
        ensures
            *self matches Value::Table(t) ==> r is Some && *r->0 == t,
            !(self is Table) ==> r is None,
    {
        match self {
            Value::Table(t) => Some(t),
            _ => None,
        }
    }

    /// Returns the table mutably, or `None` if this is not a table.
    pub fn as_table_mut(&mut self) -> (r: Option<&mut Table>)
        ensures
            match *old(self) {
                Value::Table(t) => r is Some && *r->0 == t && *final(self) == Value::Table(*final(r->0)),
                _ => r is None && *final(self) == *old(self),
            },
    {
        match self {
            Value::Table(t) => Some(t),
            _ => None,
        }
    }

    /// Whether this is a string.
    pub fn is_str(&self) -> (b: bool)
        ensures
            b == self is String,
    {
        matches!(self, Value::String(..))
    }

    /// Whether this is an integer.
    pub fn is_integer(&self) -> (b: bool)
        ensures
            b == self is Integer,
    {
        matches!(self, Value::Integer(..))
    }

    /// Whether this is a float.
    pub fn is_float(&self) -> (b: bool)
        ensures
            b == self is Float,
    {
        matches!(self, Value::Float(..))
    }

    /// Whether this is a boolean.
    pub fn is_bool(&self) -> (b: bool)
        ensures
            b == self is Boolean,
    {
        matches!(self, Value::Boolean(..))
    }

    /// Whether this is a date-time.
    pub fn is_datetime(&self) -> (b: bool)
        ensures
            b == self is Datetime,
    {
        matches!(self, Value::Datetime(..))
    }

    /// Whether this is an array.
    pub fn is_array(&self) -> (b: bool)
        ensures
            b == self is Array,
    {
        matches!(self, Value::Array(..))
    }

    /// Whether this is a table.
    pub fn is_table(&self) -> (b: bool)
        ensures
            b == self is Table,
    {
        matches!(self, Value::Table(..))
    }

    /// Looks up a key in a table, or `None` for any other kind of value.
    pub fn get(&self, key: &str) -> (r: Option<&Value>)
        ensures
            *self matches Value::Table(t) ==> match r {
                Some(v) => lookup(t@, key@) == Some(*v),
                None => lookup(t@, key@) is None,
            },
            !(self is Table) ==> r is None,
    {
        match self {
            Value::Table(t) => t.get(key),
            _ => None,
        }
    }

    /// Looks up a key in a table mutably, or `None` for any other kind of
    /// value. Whatever is written through it becomes the key's value.
    pub fn get_mut(&mut self, key: &str) -> (r: Option<&mut Value>)
        ensures
            match *old(self) {
                Value::Table(t) => if has_key(t@, key@) {
                    &&& r is Some
                    &&& lookup(t@, key@) == Some(*r->0)
                    &&& *final(self) matches Value::Table(u)
                    &&& u@ == t@.update(key_index(t@, key@), (key@, *final(r->0)))
                } else {
                    &&& r is None
                    &&& *final(self) matches Value::Table(u)
                    &&& u@ == t@
                },
                _ => r is None && *final(self) == *old(self),
            },
    {
        match self {
            Value::Table(t) => t.get_mut(key),
            _ => None,
        }
    }

    /// Looks up an index in an array, or `None` for any other kind of value.
    pub fn get_index(&self, index: usize) -> (r: Option<&Value>)
        ensures
            *self matches Value::Array(a) ==> match r {
                Some(v) => index < a@.len() && *v == a@[index as int],
                None => index >= a@.len(),
            },
            !(self is Array) ==> r is None,
    {
        match self {
            Value::Array(a) => {
                if index < a.len() {
                    Some(&a[index])
                } else {
                    None
                }
            },
            _ => None,
        }
    }
}


impl<'a> core::ops::Index<&'a str> for Value {
    type Output = Value;

    /// Looks up a key in a table; this must be a table holding the key.
    fn index(&self, key: &'a str) -> (v: &Value)
        ensures
            lookup(self->Table_0@, key@) == Some(*v),
    {
        self.get(key).unwrap()
    }
}

impl<'a> vstd::std_specs::core::IndexSpecImpl<&'a str> for Value {
    open spec fn index_req(&self, key: &&'a str) -> bool {
        self is Table && has_key(self->Table_0@, (*key)@)
    }
}

impl core::ops::Index<usize> for Value {
    type Output = Value;

    /// Indexes into an array; this must be an array long enough.
    fn index(&self, index: usize) -> (v: &Value)
        ensures
            *v == self->Array_0@[index as int],
    {
        self.get_index(index).unwrap()
    }
}

impl vstd::std_specs::core::IndexSpecImpl<usize> for Value {
    open spec fn index_req(&self, index: &usize) -> bool {
        self is Array && *index < self->Array_0@.len()
    }
}

impl From<i8> for Value {
    fn from(value: i8) -> (v: Value) {
        Value::Integer(value as i64)
    }
}

impl vstd::std_specs::convert::FromSpecImpl<i8> for Value {
    open spec fn obeys_from_spec() -> bool {
        true
    }

    open spec fn from_spec(value: i8) -> Value {
        Value::Integer(value as i64)
    }
}

impl From<i16> for Value {
    fn from(value: i16) -> (v: Value) {
        Value::Integer(value as i64)
    }
}

impl vstd::std_specs::convert::FromSpecImpl<i16> for Value {
    open spec fn obeys_from_spec() -> bool {
        true
    }

    open spec fn from_spec(value: i16) -> Value {
        Value::Integer(value as i64)
    }
}

impl From<i32> for Value {
    fn from(value: i32) -> (v: Value) {
        Value::Integer(value as i64)
    }
}

impl vstd::std_specs::convert::FromSpecImpl<i32> for Value {
    open spec fn obeys_from_spec() -> bool {
        true
    }

    open spec fn from_spec(value: i32) -> Value {
        Value::Integer(value as i64)
    }
}

impl From<i64> for Value {
    fn from(value: i64) -> (v: Value) {
        Value::Integer(value as i64)
    }
}

impl vstd::std_specs::convert::FromSpecImpl<i64> for Value {
    open spec fn obeys_from_spec() -> bool {
        true
    }

    open spec fn from_spec(value: i64) -> Value {
        Value::Integer(value as i64)
    }
}

impl From<u8> for Value {
    fn from(value: u8) -> (v: Value) {
        Value::Integer(value as i64)
    }
}

impl vstd::std_specs::convert::FromSpecImpl<u8> for Value {
    open spec fn obeys_from_spec() -> bool {
        true
    }

    open spec fn from_spec(value: u8) -> Value {
        Value::Integer(value as i64)
    }
}

impl From<u16> for Value {
    fn from(value: u16) -> (v: Value) {
        Value::Integer(value as i64)
    }
}

impl vstd::std_specs::convert::FromSpecImpl<u16> for Value {
    open spec fn obeys_from_spec() -> bool {
        true
    }

    open spec fn from_spec(value: u16) -> Value {
        Value::Integer(value as i64)
    }
}

impl From<u32> for Value {
    fn from(value: u32) -> (v: Value) {
        Value::Integer(value as i64)
    }
}

impl vstd::std_specs::convert::FromSpecImpl<u32> for Value {
    open spec fn obeys_from_spec() -> bool {
        true
    }

    open spec fn from_spec(value: u32) -> Value {
        Value::Integer(value as i64)
    }
}

impl From<bool> for Value {
    fn from(value: bool) -> (v: Value) {
        Value::Boolean(value)
    }
}

impl vstd::std_specs::convert::FromSpecImpl<bool> for Value {
    open spec fn obeys_from_spec() -> bool {
        true
    }

    open spec fn from_spec(value: bool) -> Value {
        Value::Boolean(value)
    }
}

impl From<Table> for Value {
    fn from(value: Table) -> (v: Value) {
        Value::Table(value)
    }
}

impl vstd::std_specs::convert::FromSpecImpl<Table> for Value {
    open spec fn obeys_from_spec() -> bool {
        true
    }

    open spec fn from_spec(value: Table) -> Value {
        Value::Table(value)
    }
}

impl From<Datetime> for Value {
    fn from(value: Datetime) -> (v: Value) {
        Value::Datetime(value)
    }
}

impl vstd::std_specs::convert::FromSpecImpl<Datetime> for Value {
    open spec fn obeys_from_spec() -> bool {
        true
    }

    open spec fn from_spec(value: Datetime) -> Value {
        Value::Datetime(value)
    }
}

impl From<Date> for Value {
    fn from(value: Date) -> (v: Value) {
        Value::Datetime(Datetime::local_date(value))
    }
}

impl vstd::std_specs::convert::FromSpecImpl<Date> for Value {
    open spec fn obeys_from_spec() -> bool {
        true
    }

    open spec fn from_spec(value: Date) -> Value {
        Value::Datetime(Datetime { date: Some(value), time: None, offset: None })
    }
}

impl From<Time> for Value {
    fn from(value: Time) -> (v: Value) {
        Value::Datetime(Datetime::local_time(value))
    }
}

impl vstd::std_specs::convert::FromSpecImpl<Time> for Value {
    open spec fn obeys_from_spec() -> bool {
        true
    }

    open spec fn from_spec(value: Time) -> Value {
        Value::Datetime(Datetime { date: None, time: Some(value), offset: None })
    }
}

impl<T: Into<Value>> From<Vec<T>> for Value {
    /// An array of the items, each converted.
    fn from(value: Vec<T>) -> (v: Value)
        ensures
            v is Array,
            v->Array_0@.len() == value@.len(),
            forall|i: int|
                0 <= i < value@.len() ==> call_ensures(T::into, (#[trigger] value@[i],), v->Array_0@[i]),
    {
        let ghost orig = value@;
        let mut rest = value;
        let mut items: Vec<Value> = Vec::new();
        while rest.len() > 0
            invariant
                items@.len() + rest@.len() == orig.len(),
                rest@ == orig.skip(items@.len() as int),
                forall|i: int|
                    0 <= i < items@.len() ==> call_ensures(T::into, (#[trigger] orig[i],), items@[i]),
            decreases rest@.len(),
        {
            let x = rest.remove(0);
            let ghost k = items@.len();
            assert(x == orig[k as int]);
            let y: Value = x.into();
            items.push(y);
            assert(rest@ =~= orig.skip(items@.len() as int));
        }
        Value::Array(items)
    }
}

/// The conversion of each item is stated by the `ensures` of `from`.
impl<T: Into<Value>> vstd::std_specs::convert::FromSpecImpl<Vec<T>> for Value {
    open spec fn obeys_from_spec() -> bool {
        false
    }

    open spec fn from_spec(value: Vec<T>) -> Value {
        Value::Boolean(false)
    }
}

impl<T: Into<Value> + Clone, const N: usize> From<[T; N]> for Value {
    /// An array of the items, each converted.
    fn from(value: [T; N]) -> (v: Value)
        ensures
            v is Array,
            v->Array_0@.len() == N,
    {
        let mut items: Vec<Value> = Vec::new();
        let mut i: usize = 0;
        while i < N
            invariant
                i <= N,
                items@.len() == i,
            decreases N - i,
        {
            let x: T = value[i].clone();
            items.push(x.into());
            i += 1;
        }
        Value::Array(items)
    }
}

/// The length of the result is stated by the `ensures` of `from`.
impl<T: Into<Value> + Clone, const N: usize> vstd::std_specs::convert::FromSpecImpl<[T; N]> for Value {
    open spec fn obeys_from_spec() -> bool {
        false
    }

    open spec fn from_spec(value: [T; N]) -> Value {
        Value::Boolean(false)
    }
}

impl From<Float> for Value {
    fn from(value: Float) -> (v: Value) {
        Value::Float(value)
    }
}

impl vstd::std_specs::convert::FromSpecImpl<Float> for Value {
    open spec fn obeys_from_spec() -> bool {
        true
    }

    open spec fn from_spec(value: Float) -> Value {
        Value::Float(value)
    }
}

impl From<String> for Value {
    fn from(value: String) -> (v: Value) {
        Value::String(value)
    }
}

impl vstd::std_specs::convert::FromSpecImpl<String> for Value {
    open spec fn obeys_from_spec() -> bool {
        true
    }

    open spec fn from_spec(value: String) -> Value {
        Value::String(value)
    }
}

impl<'a> From<&'a str> for Value {
    fn from(value: &'a str) -> (v: Value)
        ensures
            v matches Value::String(s) && s@ == value@,
    {
        Value::String(value.to_owned())
    }
}

/// A string value cannot be written down as a spec expression, so the
/// conversion's result is stated by the `ensures` of `from` instead.
impl<'a> vstd::std_specs::convert::FromSpecImpl<&'a str> for Value {
    open spec fn obeys_from_spec() -> bool {
        false
    }

    open spec fn from_spec(value: &'a str) -> Value {
        Value::Boolean(false)
    }
}

/// The name of a value's type, as TOML calls it.
pub open spec fn kind_name_of(v: Value) -> Seq<char> {
    match v {
        Value::String(..) => "string"@,
        Value::Integer(..) => "integer"@,
        Value::Float(..) => "float"@,
        Value::Boolean(..) => "boolean"@,
        Value::Datetime(..) => "datetime"@,
        Value::Array(..) => "array"@,
        Value::Table(..) => "table"@,
    }
}

} // verus!

verus! {

/// Where the first `.` at or after `i` is, or the end of `p`.
pub open spec fn next_dot(p: Seq<char>, i: int) -> int
    decreases p.len() - i,
{
    if i < 0 || i >= p.len() || p[i] == '.' {
        i
    } else {
        next_dot(p, i + 1)
    }
}

/// The `.`-separated segments of `p[i..]`.
pub open spec fn segments_from(p: Seq<char>, i: int) -> Seq<Seq<char>>
    decreases p.len() - i,
{
    let d = next_dot(p, i);
    if 0 <= i <= d < p.len() {
        seq![p.subrange(i, d)] + segments_from(p, d + 1)
    } else {
        seq![p.subrange(i, p.len() as int)]
    }
}

/// The `.`-separated segments of a path. Each is taken literally, so a key
/// holding a `.` cannot be reached.
pub open spec fn path_segments(p: Seq<char>) -> Seq<Seq<char>> {
    segments_from(p, 0)
}

/// A path segment read as an array index the way `usize` is read from text:
/// an optional `+`, then decimal digits, with a value that fits.
pub open spec fn index_text(s: Seq<char>) -> Option<int> {
    let digits = index_digits(s);
    if digits.len() > 0 && (forall|i: int| 0 <= i < digits.len() ==> #[trigger] is_digit(digits[i]))
        && dec_value(digits) <= usize::MAX {
        Some(dec_value(digits))
    } else {
        None
    }
}

/// The digits of an index segment: all of it, or what follows a leading `+`.
pub open spec fn index_digits(s: Seq<char>) -> Seq<char> {
    if s.len() > 0 && s[0] == '+' {
        s.drop_first()
    } else {
        s
    }
}

/// The value reached from `v` by following `segs[k..]`: a key into a table,
/// an index into an array.
pub open spec fn walk(v: Value, segs: Seq<Seq<char>>, k: int) -> Option<Value>
    decreases segs.len() - k,
{
    if k < 0 || k >= segs.len() {
        Some(v)
    } else {
        match v {
            Value::Table(t) => match lookup(t@, segs[k]) {
                Some(c) => walk(c, segs, k + 1),
                None => None,
            },
            Value::Array(a) => match index_text(segs[k]) {
                Some(i) => if i < a@.len() {
                    walk(a@[i], segs, k + 1)
                } else {
                    None
                },
                None => None,
            },
            _ => None,
        }
    }
}

/// The views of some strings.
pub open spec fn string_views(v: Seq<String>) -> Seq<Seq<char>> {
    v.map_values(|s: String| s@)
}

/// Splits a path at its dots.
pub fn split_path(path: &str) -> (segs: Vec<String>)
    ensures
        string_views(segs@) == path_segments(path@),
{
    let cs = str_chars(path);
    let mut segs: Vec<String> = Vec::new();
    let mut start: usize = 0;
    let mut i: usize = 0;
    loop
        invariant
            cs@ == path@,
            start <= i <= cs.len(),
            next_dot(cs@, start as int) == next_dot(cs@, i as int),
            path_segments(cs@) == string_views(segs@) + segments_from(cs@, start as int),
        decreases cs.len() - i,
    {
        if i < cs.len() && cs[i] != '.' {
            i += 1;
        } else if i < cs.len() {
            let ghost before = string_views(segs@);
            let seg = string_from_chars(&cs, start, i);
            segs.push(seg);
            assert(string_views(segs@) =~= before.push(seg@));
            assert(before + segments_from(cs@, start as int) =~= string_views(segs@) + segments_from(
                cs@,
                i + 1,
            ));
            start = i + 1;
            i = i + 1;
        } else {
            let ghost before = string_views(segs@);
            let seg = string_from_chars(&cs, start, i);
            segs.push(seg);
            assert(string_views(segs@) =~= before.push(seg@));
            assert(before + segments_from(cs@, start as int) =~= string_views(segs@));
            return segs;
        }
    }
}

/// Reads a path segment as an array index; see [`index_text`].
pub fn parse_index(s: &str) -> (r: Option<usize>)
    ensures
        r matches Some(n) ==> index_text(s@) == Some(n as int),
        r is None ==> index_text(s@) is None,
{
    let cs = str_chars(s);
    let start: usize = if cs.len() > 0 && cs[0] == '+' { 1 } else { 0 };
    let ghost digits = index_digits(s@);
    assert(digits =~= cs@.subrange(start as int, cs@.len() as int));
    if start == cs.len() {
        return None;
    }
    let mut k = start;
    while k < cs.len()
        invariant
            start <= k <= cs.len(),
            cs@ == s@,
            digits == index_digits(s@),
            digits == cs@.subrange(start as int, cs@.len() as int),
            forall|j: int| start <= j < k ==> #[trigger] is_digit(cs@[j]),
        decreases cs.len() - k,
    {
        if !('0' <= cs[k] && cs[k] <= '9') {
            assert(!is_digit(digits[k - start]));
            return None;
        }
        k += 1;
    }
    assert forall|j: int| 0 <= j < digits.len() implies #[trigger] is_digit(digits[j]) by {
        assert(is_digit(cs@[j + start]));
    }
    let mut v: usize = 0;
    let mut i = start;
    while i < cs.len()
        invariant
            start <= i <= cs.len(),
            start < cs.len(),
            cs@ == s@,
            digits == index_digits(s@),
            digits == cs@.subrange(start as int, cs@.len() as int),
            forall|j: int| 0 <= j < digits.len() ==> #[trigger] is_digit(digits[j]),
            v == dec_value(cs@.subrange(start as int, i as int)),
        decreases cs.len() - i,
    {
        let c = cs[i];
        assert(is_digit(digits[i - start]));
        let d = char_digit(c) as usize;
        assert(cs@.subrange(start as int, i + 1).drop_last() =~= cs@.subrange(start as int, i as int));
        if v > (usize::MAX - d) / 10 {
            proof {
                assert(cs@.subrange(start as int, i + 1) =~= digits.take(i + 1 - start));
                lemma_dec_value_prefix(digits, i + 1 - start);
            }
            return None;
        }
        v = v * 10 + d;
        i += 1;
    }
    assert(cs@.subrange(start as int, i as int) =~= digits);
    Some(v)
}

/// A longer prefix of a run of digits is worth at least as much.
proof fn lemma_dec_value_prefix(s: Seq<char>, n: int)
    requires
        0 <= n <= s.len(),
        forall|i: int| 0 <= i < s.len() ==> #[trigger] is_digit(s[i]),
    ensures
        dec_value(s.take(n)) <= dec_value(s),
    decreases s.len() - n,
{
    if n < s.len() {
        lemma_dec_value_prefix(s, n + 1);
        assert(is_digit(s[n]));
        assert(s.take(n + 1).drop_last() =~= s.take(n));
        assert(dec_value(s.take(n + 1)) == dec_value(s.take(n)) * 10 + digit_val(s[n]));
        assert(dec_value(s.take(n)) >= 0) by {
            lemma_dec_value_nonneg(s.take(n));
        }
    } else {
        assert(s.take(n) =~= s);
    }
}

/// The value of a run of digits is never negative.
proof fn lemma_dec_value_nonneg(s: Seq<char>)
    requires
        forall|i: int| 0 <= i < s.len() ==> #[trigger] is_digit(s[i]),
    ensures
        dec_value(s) >= 0,
    decreases s.len(),
{
    if s.len() > 0 {
        lemma_dec_value_nonneg(s.drop_last());
        assert(is_digit(s[s.len() - 1]));
    }
}

/// Follows `segs[k..]` from `v`; see [`walk`].
pub fn walk_from<'a>(v: &'a Value, segs: &Vec<String>, k: usize) -> (r: Option<&'a Value>)
    ensures
        r matches Some(w) ==> walk(*v, string_views(segs@), k as int) == Some(*w),
        r is None ==> walk(*v, string_views(segs@), k as int) is None,
{
    let ghost sv = string_views(segs@);
    let mut cur: &Value = v;
    let mut i = k;
    if i >= segs.len() {
        return Some(cur);
    }
    while i < segs.len()
        invariant
            k <= i <= segs.len(),
            sv == string_views(segs@),
            walk(*v, sv, k as int) == walk(*cur, sv, i as int),
        decreases segs.len() - i,
    {
        assert(sv[i as int] == segs@[i as int]@);
        let next: &Value = match cur {
            Value::Table(t) => match t.get(segs[i].as_str()) {
                Some(c) => c,
                None => return None,
            },
            Value::Array(a) => match parse_index(segs[i].as_str()) {
                Some(n) => {
                    if n < a.len() {
                        &a[n]
                    } else {
                        return None;
                    }
                },
                None => return None,
            },
            _ => return None,
        };
        cur = next;
        i += 1;
    }
    Some(cur)
}

impl Value {
    /// Follows a dotted path such as `"servers.alpha.ip"`, descending
    /// through tables and, for segments that are decimal numbers, arrays.
    ///
    /// Path segments are taken literally, so this cannot reach a key that
    /// itself contains a `.`.
    pub fn get_path(&self, path: &str) -> (r: Option<&Value>)
        ensures
            r matches Some(w) ==> walk(*self, path_segments(path@), 0) == Some(*w),
            r is None ==> walk(*self, path_segments(path@), 0) is None,
    {
        let segs = split_path(path);
        walk_from(self, &segs, 0)
    }

    /// The value in TOML's value syntax, using inline tables for tables.
    pub fn to_string(&self) -> (s: String)
        ensures
            s@ == inline_text(*self),
    {
        let mut s = String::new();
        write_value(&mut s, self);
        assert(s@ =~= inline_text(*self));
        s
    }
}

impl Table {
    /// Follows a dotted path such as `"servers.alpha.ip"` from this table,
    /// descending through tables and, for segments that are decimal numbers,
    /// arrays. Segments are taken literally, so this cannot reach a key that
    /// itself contains a `.`; use [`get`](Table::get) at that step instead.
    pub fn get_path(&self, path: &str) -> (r: Option<&Value>)
        ensures
            r matches Some(w) ==> match lookup(self@, path_segments(path@)[0]) {
                Some(c) => walk(c, path_segments(path@), 1) == Some(*w),
                None => false,
            },
            r is None ==> match lookup(self@, path_segments(path@)[0]) {
                Some(c) => walk(c, path_segments(path@), 1) is None,
                None => true,
            },
    {
        let segs = split_path(path);
        proof {
            lemma_segments_nonempty(path@, 0);
        }
        assert(string_views(segs@)[0] == segs@[0]@);
        match self.get(segs[0].as_str()) {
            Some(first) => walk_from(first, &segs, 1),
            None => None,
        }
    }
}

/// A path always has at least one segment.
proof fn lemma_segments_nonempty(p: Seq<char>, i: int)
    ensures
        segments_from(p, i).len() >= 1,
    decreases p.len() - i,
{
    let d = next_dot(p, i);
    if 0 <= i <= d < p.len() {
        lemma_segments_nonempty(p, d + 1);
    }
}

} // verus!
