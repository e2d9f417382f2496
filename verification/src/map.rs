//! The insertion-ordered map that backs TOML tables.

use vstd::prelude::*;

use crate::value::Value;
use crate::text::str_chars;
use vstd::multiset::Multiset;
use vstd::std_specs::convert::IntoSpec;

verus! {

/// A TOML table: a map from keys to [`Value`]s that remembers the order in
/// which keys were first inserted.
///
/// Iteration order is insertion order, which is also the order the serializer
/// writes keys in. Two tables compare equal when they hold the same key/value
/// pairs, whatever their order.
#[derive(Debug)]
pub struct Table {
    keys: Vec<String>,
    values: Vec<Value>,
}

/// Whether no key occurs twice.
pub open spec fn distinct_keys(e: Seq<(Seq<char>, Value)>) -> bool {
    forall|i: int, j: int| 0 <= i < j < e.len() ==> #[trigger] e[i].0 != #[trigger] e[j].0
}

/// Whether `k` is one of the keys.
pub open spec fn has_key(e: Seq<(Seq<char>, Value)>, k: Seq<char>) -> bool {
    exists|i: int| 0 <= i < e.len() && #[trigger] e[i].0 == k
}

/// The first position of `k`, if it is a key.
pub open spec fn key_index(e: Seq<(Seq<char>, Value)>, k: Seq<char>) -> int {
    choose|i: int|
        #![trigger e[i]]
        0 <= i < e.len() && e[i].0 == k && forall|j: int| 0 <= j < i ==> #[trigger] e[j].0 != k
}

/// Some position at or before `w` holds `k` first.
proof fn lemma_first_at_or_before(e: Seq<(Seq<char>, Value)>, k: Seq<char>, w: int)
    requires
        0 <= w < e.len(),
        e[w].0 == k,
    ensures
        exists|i: int|
            #![trigger e[i]]
            0 <= i < e.len() && e[i].0 == k && forall|j: int| 0 <= j < i ==> #[trigger] e[j].0 != k,
    decreases w,
{
    if exists|j: int| 0 <= j < w && #[trigger] e[j].0 == k {
        let j = choose|j: int| 0 <= j < w && #[trigger] e[j].0 == k;
        lemma_first_at_or_before(e, k, j);
    } else {
        assert(e[w].0 == k);
    }
}

/// Where a key that is present first occurs.
pub proof fn lemma_key_index(e: Seq<(Seq<char>, Value)>, k: Seq<char>)
    requires
        has_key(e, k),
    ensures
        0 <= key_index(e, k) < e.len(),
        e[key_index(e, k)].0 == k,
        forall|j: int| 0 <= j < key_index(e, k) ==> #[trigger] e[j].0 != k,
{
    let w = choose|i: int| 0 <= i < e.len() && #[trigger] e[i].0 == k;
    lemma_first_at_or_before(e, k, w);
}

/// The value stored under `k`, if any.
pub open spec fn lookup(e: Seq<(Seq<char>, Value)>, k: Seq<char>) -> Option<Value> {
    if has_key(e, k) {
        Some(e[key_index(e, k)].1)
    } else {
        None
    }
}

/// The keys, in order.
pub open spec fn keys_of(e: Seq<(Seq<char>, Value)>) -> Seq<Seq<char>> {
    e.map_values(|p: (Seq<char>, Value)| p.0)
}

/// In a table without repeated keys, the entry at `i` is the one `lookup`
/// finds for its key.
pub proof fn lemma_lookup_at(e: Seq<(Seq<char>, Value)>, i: int)
    requires
        distinct_keys(e),
        0 <= i < e.len(),
    ensures
        has_key(e, e[i].0),
        key_index(e, e[i].0) == i,
        lookup(e, e[i].0) == Some(e[i].1),
{
    assert(has_key(e, e[i].0));
    lemma_key_index(e, e[i].0);
    let j = key_index(e, e[i].0);
    if j != i {
        if j < i {
            assert(e[j].0 != e[i].0);
        } else {
            assert(e[i].0 != e[j].0);
        }
    }
}

/// A value stored in a table is structurally smaller than the table.
pub proof fn lemma_entry_decreases(t: Table, i: int)
    requires
        0 <= i < t@.len(),
    ensures
        decreases_to!(t => t@[i].1),
{
    assert(t@[i].1 == t.values@[i]);
    assert(decreases_to!(t => t.values));
    assert(decreases_to!(t.values => t.values@));
    assert(decreases_to!(t.values@ => t.values@[i]));
}

/// The entries that a list of keys and a list of values, side by side, make.
spec fn parts(keys: Seq<String>, values: Seq<Value>) -> Seq<(Seq<char>, Value)> {
    Seq::new(values.len(), |i: int| (keys[i]@, values[i]))
}

/// Changing only the values keeps the keys, and so keeps them distinct.
proof fn lemma_parts_keys(keys: Seq<String>, values: Seq<Value>)
    requires
        keys.len() == values.len(),
        distinct_keys(parts(keys, values)),
    ensures
        forall|other: Seq<Value>|
            other.len() == values.len() ==> distinct_keys(#[trigger] parts(keys, other)),
{
    assert forall|other: Seq<Value>| other.len() == values.len() implies distinct_keys(
        #[trigger] parts(keys, other),
    ) by {
        let e = parts(keys, values);
        let f = parts(keys, other);
        assert forall|a: int, b: int| 0 <= a < b < f.len() implies #[trigger] f[a].0
            != #[trigger] f[b].0 by {
            assert(e[a].0 != e[b].0);
        }
    }
}

impl View for Table {
    type V = Seq<(Seq<char>, Value)>;

    closed spec fn view(&self) -> Seq<(Seq<char>, Value)> {
        parts(self.keys@, self.values@)
    }
}

impl Table {
    #[verifier::type_invariant]
    closed spec fn wf(self) -> bool {
        &&& self.keys@.len() == self.values@.len()
        &&& distinct_keys(self@)
    }

    /// Creates an empty table.
    pub fn new() -> (t: Table)
        ensures
            t@ == Seq::<(Seq<char>, Value)>::empty(),
    {
        let t = Table { keys: Vec::new(), values: Vec::new() };
        assert(t@ =~= Seq::<(Seq<char>, Value)>::empty());
        t
    }

    /// Creates an empty table with room for `capacity` entries.
    pub fn with_capacity(capacity: usize) -> (t: Table)
        ensures
            t@ == Seq::<(Seq<char>, Value)>::empty(),
    {
        let t = Table { keys: Vec::with_capacity(capacity), values: Vec::with_capacity(capacity) };
        assert(t@ =~= Seq::<(Seq<char>, Value)>::empty());
        t
    }

    /// No key occurs twice in a table; a no-op that makes this fact known.
    pub fn keys_are_distinct(&self)
        ensures
            distinct_keys(self@),
    {
        proof {
            use_type_invariant(self);
        }
    }

    /// The number of entries in the table.
    pub fn len(&self) -> (n: usize)
        ensures
            n == self@.len(),
    {
        self.values.len()
    }

    /// Whether the table has no entries.
    pub fn is_empty(&self) -> (b: bool)
        ensures
            b == (self@.len() == 0),
    {
        self.values.len() == 0
    }

    /// Moves the keys and the values out, leaving the table empty.
    fn take_parts(&mut self) -> (r: (Vec<String>, Vec<Value>))
        ensures
            r.0@.len() == r.1@.len(),
            parts(r.0@, r.1@) == old(self)@,
            distinct_keys(old(self)@),
            final(self)@ == Seq::<(Seq<char>, Value)>::empty(),
    {
        proof {
            use_type_invariant(&*self);
        }
        let mut t = Table::new();
        std::mem::swap(&mut t, self);
        let Table { keys, values } = t;
        (keys, values)
    }

    /// Puts keys and values, side by side, in place of the table's entries.
    fn put_parts(&mut self, keys: Vec<String>, values: Vec<Value>)
        requires
            keys@.len() == values@.len(),
            distinct_keys(parts(keys@, values@)),
        ensures
            final(self)@ == parts(keys@, values@),
    {
        *self = Table { keys, values };
    }

    /// The position of `key`, if present.
    fn position(&self, key: &Vec<char>) -> (r: Option<usize>)
        ensures
            r is None <==> !has_key(self@, key@),
            r matches Some(i) ==> i < self@.len() && self@[i as int].0 == key@ && key_index(
                self@,
                key@,
            ) == i,
    {
        proof {
            use_type_invariant(self);
        }
        let mut i: usize = 0;
        while i < self.keys.len()
            invariant
                i <= self.keys.len(),
                self.keys@.len() == self@.len(),
                distinct_keys(self@),
                forall|j: int| 0 <= j < i ==> #[trigger] self@[j].0 != key@,
            decreases self.keys.len() - i,
        {
            let k = str_chars(self.keys[i].as_str());
            if chars_eq(&k, key) {
                proof {
                    lemma_lookup_at(self@, i as int);
                }
                return Some(i);
            }
            i += 1;
        }
        None
    }

    /// The position of `key` in insertion order, if present.
    pub fn index_of(&self, key: &str) -> (r: Option<usize>)
        ensures
            r is None <==> !has_key(self@, key@),
            r matches Some(i) ==> i < self@.len() && self@[i as int].0 == key@ && key_index(
                self@,
                key@,
            ) == i,
    {
        let k = str_chars(key);
        self.position(&k)
    }

    /// Puts `value` in place of the value at position `i`, returning the one
    /// it replaces. The keys and their order are unchanged.
    pub fn replace_at(&mut self, i: usize, value: Value) -> (previous: Value)
        requires
            i < old(self)@.len(),
        ensures
            previous == old(self)@[i as int].1,
            final(self)@ == old(self)@.update(i as int, (old(self)@[i as int].0, value)),
    {
        let (keys, mut values) = self.take_parts();
        proof {
            lemma_parts_keys(keys@, values@);
        }
        let mut previous = value;
        std::mem::swap(&mut previous, &mut values[i]);
        assert(parts(keys@, values@) =~= old(self)@.update(i as int, (old(self)@[i as int].0, value)));
        self.put_parts(keys, values);
        previous
    }

    /// Whether `key` is present.
    pub fn contains_key(&self, key: &str) -> (b: bool)
        ensures
            b == has_key(self@, key@),
    {
        let k = str_chars(key);
        self.position(&k).is_some()
    }

    /// Returns the value for `key`, if any.
    pub fn get(&self, key: &str) -> (r: Option<&Value>)
        ensures
            r matches Some(v) ==> lookup(self@, key@) == Some(*v),
            r is None ==> lookup(self@, key@) is None,
    {
        let k = str_chars(key);
        self.get_chars(&k)
    }

    /// Returns a mutable reference to the value for `key`, if any. Whatever
    /// is written through it becomes the key's value; the keys and their
    /// order are unchanged.
    pub fn get_mut(&mut self, key: &str) -> (r: Option<&mut Value>)
        ensures
            has_key(old(self)@, key@) ==> r is Some && lookup(old(self)@, key@) == Some(*r->0)
                && final(self)@ == old(self)@.update(
                key_index(old(self)@, key@),
                (key@, *final(r->0)),
            ),
            !has_key(old(self)@, key@) ==> r is None && final(self)@ == old(self)@,
    {
        let k = str_chars(key);
        match self.position(&k) {
            Some(i) => Some(self.value_mut_at(i)),
            None => None,
        }
    }

    /// A mutable reference to the value at position `i`, in insertion
    /// order. Whatever is written through it becomes the value there; the
    /// keys and their order are unchanged. Walking `i` from 0 to `len()`
    /// visits every value mutably, in order.
    pub fn value_mut_at(&mut self, i: usize) -> (r: &mut Value)
        requires
            i < old(self)@.len(),
        ensures
            *r == old(self)@[i as int].1,
            final(self)@ == old(self)@.update(i as int, (old(self)@[i as int].0, *final(r))),
    {
        proof {
            use_type_invariant(&*self);
            lemma_parts_keys(self.keys@, self.values@);
        }
        let r = &mut self.values[i];
        r
    }

    /// Returns the value for the key given as characters, if any.
    pub fn get_chars(&self, key: &Vec<char>) -> (r: Option<&Value>)
        ensures
            r matches Some(v) ==> lookup(self@, key@) == Some(*v),
            r is None ==> lookup(self@, key@) is None,
    {
        match self.position(key) {
            Some(i) => Some(&self.values[i]),
            None => None,
        }
    }

    /// Returns the stored key and its value, if the key is present.
    pub fn get_key_value(&self, key: &str) -> (r: Option<(&str, &Value)>)
        ensures
            r matches Some((k, v)) ==> k@ == key@ && lookup(self@, key@) == Some(*v),
            r is None ==> lookup(self@, key@) is None,
    {
        proof {
            use_type_invariant(self);
        }
        let k = str_chars(key);
        match self.position(&k) {
            Some(i) => Some((self.keys[i].as_str(), &self.values[i])),
            None => None,
        }
    }

    /// Inserts a value under a key given as characters, returning the
    /// previous value if the key was already present. Replacing a value keeps
    /// the key at its original position; a new key goes last.
    pub fn insert_entry(&mut self, key: String, value: Value) -> (old_value: Option<Value>)
        ensures
            old_value == lookup(old(self)@, key@),
            final(self)@ == inserted(old(self)@, key@, value),
    {
        let k = str_chars(key.as_str());
        match self.position(&k) {
            Some(i) => {
                let previous = self.replace_at(i, value);
                Some(previous)
            },
            None => {
                let (mut keys, mut values) = self.take_parts();
                keys.push(key);
                values.push(value);
                let ghost e = parts(keys@, values@);
                assert(e =~= old(self)@.push((k@, value)));
                proof {
                    assert forall|a: int, b: int| 0 <= a < b < e.len() implies #[trigger] e[a].0
                        != #[trigger] e[b].0 by {
                        if b == e.len() - 1 {
                            assert(old(self)@[a].0 != k@);
                        } else {
                            assert(old(self)@[a].0 != old(self)@[b].0);
                        }
                    }
                }
                self.put_parts(keys, values);
                None
            },
        }
    }

    /// Inserts a value, returning the previous one if the key was already
    /// present. Replacing a value keeps the key at its original position; a
    /// new key goes last. The value is whatever `value.into()` produces.
    pub fn insert<V: Into<Value>>(&mut self, key: &str, value: V) -> (old_value: Option<Value>)
        ensures
            exists|v: Value|
                #![trigger call_ensures(V::into, (value,), v)]
                {
                    &&& call_ensures(V::into, (value,), v)
                    &&& old_value == lookup(old(self)@, key@)
                    &&& final(self)@ == inserted(old(self)@, key@, v)
                },
    {
        let v: Value = value.into();
        assert(call_ensures(V::into, (value,), v));
        self.insert_entry(key.to_owned(), v)
    }

    /// A table holding the pairs, inserted in order: a key that occurs twice
    /// keeps its first position and takes its last value.
    pub fn from_pairs<V: Into<Value>>(pairs: Vec<(&str, V)>) -> (t: Table)
        ensures
            t@.len() <= pairs@.len(),
            forall|i: int| 0 <= i < pairs@.len() ==> #[trigger] has_key(t@, pairs@[i].0@),
            <V as IntoSpec<Value>>::obeys_into_spec() ==> t@ == pairs_inserted(pairs@, pairs@.len() as int),
    {
        let ghost orig = pairs@;
        let total = pairs.len();
        let mut rest = pairs;
        let mut t = Table::new();
        let mut n: usize = 0;
        while rest.len() > 0
            invariant
                total == orig.len(),
                n + rest@.len() == orig.len(),
                rest@ == orig.skip(n as int),
                t@.len() <= n,
                forall|i: int| 0 <= i < n ==> #[trigger] has_key(t@, orig[i].0@),
                <V as IntoSpec<Value>>::obeys_into_spec() ==> t@ == pairs_inserted(orig, n as int),
            decreases rest@.len(),
        {
            let (k, v) = rest.remove(0);
            assert(k == orig[n as int].0);
            let ghost before = t@;
            let value: Value = v.into();
            t.insert_entry(k.to_owned(), value);
            proof {
                if has_key(before, k@) {
                    lemma_key_index(before, k@);
                    let ki = key_index(before, k@);
                    assert(before[ki].0 == k@);
                    assert forall|j: int| 0 <= j < before.len() implies #[trigger] t@[j].0 == before[j].0 by {
                    }
                } else {
                    assert forall|j: int| 0 <= j < before.len() implies #[trigger] t@[j].0 == before[j].0 by {
                    }
                }
                assert forall|i: int| 0 <= i <= n implies #[trigger] has_key(t@, orig[i].0@) by {
                    if i < n {
                        assert(has_key(before, orig[i].0@));
                        let j = choose|j: int| 0 <= j < before.len() && #[trigger] before[j].0 == orig[i].0@;
                        assert(t@[j].0 == before[j].0);
                    } else if has_key(before, k@) {
                        let j = key_index(before, k@);
                        assert(t@[j].0 == k@);
                    } else {
                        assert(t@[before.len() as int].0 == k@);
                    }
                }
            }
            n += 1;
            assert(rest@ =~= orig.skip(n as int));
        }
        t
    }

    /// Removes `key`, returning its value if it was present. The remaining
    /// entries keep their relative order.
    pub fn remove(&mut self, key: &str) -> (r: Option<Value>)
        ensures
            r == lookup(old(self)@, key@),
            final(self)@ == removed(old(self)@, key@),
    {
        let k = str_chars(key);
        match self.position(&k) {
            Some(i) => {
                let (mut keys, mut values) = self.take_parts();
                keys.remove(i);
                let value = values.remove(i);
                let ghost e = parts(keys@, values@);
                assert(e =~= old(self)@.remove(i as int));
                proof {
                    assert forall|a: int, b: int| 0 <= a < b < e.len() implies #[trigger] e[a].0
                        != #[trigger] e[b].0 by {
                        let oa = if a < i { a } else { a + 1 };
                        let ob = if b < i { b } else { b + 1 };
                        assert(old(self)@[oa].0 != old(self)@[ob].0);
                    }
                }
                self.put_parts(keys, values);
                Some(value)
            },
            None => None,
        }
    }

    /// Removes every entry.
    pub fn clear(&mut self)
        ensures
            final(self)@ == Seq::<(Seq<char>, Value)>::empty(),
    {
        let _ = self.take_parts();
    }

    /// Moves the entries out, leaving the table empty.
    fn take_entries(&mut self) -> (e: Vec<(String, Value)>)
        ensures
            views(e@) == old(self)@,
            distinct_keys(old(self)@),
            final(self)@ == Seq::<(Seq<char>, Value)>::empty(),
    {
        let (mut keys, mut values) = self.take_parts();
        let ghost orig = old(self)@;
        let n = values.len();
        let mut e: Vec<(String, Value)> = Vec::with_capacity(n);
        let mut i: usize = 0;
        while i < n
            invariant
                n == keys@.len() == values@.len() == orig.len(),
                i <= n,
                e@.len() == i,
                forall|j: int| i <= j < n ==> (#[trigger] keys@[j])@ == orig[j].0,
                forall|j: int| i <= j < n ==> #[trigger] values@[j] == orig[j].1,
                forall|j: int| 0 <= j < i ==> (#[trigger] e@[j]).0@ == orig[j].0 && e@[j].1 == orig[j].1,
            decreases n - i,
        {
            let mut k = String::new();
            std::mem::swap(&mut k, &mut keys[i]);
            let mut v = Value::Boolean(false);
            std::mem::swap(&mut v, &mut values[i]);
            e.push((k, v));
            i += 1;
        }
        assert(views(e@) =~= orig);
        e
    }

    /// Puts entries without repeated keys in place of the table's.
    fn put_entries(&mut self, e: Vec<(String, Value)>)
        requires
            distinct_keys(views(e@)),
        ensures
            final(self)@ == views(e@),
    {
        let ghost target = views(e@);
        let n = e.len();
        let mut rest = e;
        let mut keys: Vec<String> = Vec::with_capacity(n);
        let mut values: Vec<Value> = Vec::with_capacity(n);
        let mut i: usize = 0;
        while i < n
            invariant
                n == target.len(),
                i <= n,
                rest@.len() == n,
                keys@.len() == i,
                values@.len() == i,
                forall|j: int| i <= j < n ==> (#[trigger] rest@[j]).0@ == target[j].0 && rest@[j].1 == target[j].1,
                forall|j: int| 0 <= j < i ==> (#[trigger] keys@[j])@ == target[j].0,
                forall|j: int| 0 <= j < i ==> #[trigger] values@[j] == target[j].1,
            decreases n - i,
        {
            let mut slot = (String::new(), Value::Boolean(false));
            std::mem::swap(&mut slot, &mut rest[i]);
            let (k, v) = slot;
            keys.push(k);
            values.push(v);
            i += 1;
        }
        assert(parts(keys@, values@) =~= target);
        self.put_parts(keys, values);
    }

    /// The entries, in insertion order, moved out of the table.
    pub fn into_entries(self) -> (r: Vec<(String, Value)>)
        ensures
            views(r@) == self@,
    {
        let mut t = self;
        t.take_entries()
    }

    /// The entries, in insertion order.
    pub fn iter(&self) -> (r: Vec<(&str, &Value)>)
        ensures
            r@.len() == self@.len(),
            forall|i: int|
                0 <= i < r@.len() ==> (#[trigger] r@[i]).0@ == self@[i].0 && *r@[i].1 == self@[i].1,
    {
        proof {
            use_type_invariant(self);
        }
        let mut r: Vec<(&str, &Value)> = Vec::new();
        let mut i: usize = 0;
        while i < self.values.len()
            invariant
                i <= self.values.len(),
                self.keys@.len() == self.values@.len(),
                r@.len() == i,
                forall|j: int|
                    0 <= j < i ==> (#[trigger] r@[j]).0@ == self@[j].0 && *r@[j].1 == self@[j].1,
            decreases self.values.len() - i,
        {
            r.push((self.keys[i].as_str(), &self.values[i]));
            i += 1;
        }
        r
    }

    /// The keys, in insertion order.
    pub fn keys(&self) -> (r: Vec<&str>)
        ensures
            r@.len() == self@.len(),
            forall|i: int| 0 <= i < r@.len() ==> (#[trigger] r@[i])@ == self@[i].0,
    {
        proof {
            use_type_invariant(self);
        }
        let mut r: Vec<&str> = Vec::new();
        let mut i: usize = 0;
        while i < self.keys.len()
            invariant
                i <= self.keys.len(),
                self.keys@.len() == self.values@.len(),
                r@.len() == i,
                forall|j: int| 0 <= j < i ==> (#[trigger] r@[j])@ == self@[j].0,
            decreases self.keys.len() - i,
        {
            r.push(self.keys[i].as_str());
            i += 1;
        }
        r
    }

    /// The values, in insertion order.
    pub fn values(&self) -> (r: Vec<&Value>)
        ensures
            r@.len() == self@.len(),
            forall|i: int| 0 <= i < r@.len() ==> *(#[trigger] r@[i]) == self@[i].1,
    {
        let mut r: Vec<&Value> = Vec::new();
        let mut i: usize = 0;
        while i < self.values.len()
            invariant
                i <= self.values.len(),
                r@.len() == i,
                forall|j: int| 0 <= j < i ==> *(#[trigger] r@[j]) == self@[j].1,
            decreases self.values.len() - i,
        {
            r.push(&self.values[i]);
            i += 1;
        }
        r
    }

    /// The entry at position `i`.
    pub fn entry_at(&self, i: usize) -> (r: (&str, &Value))
        requires
            i < self@.len(),
        ensures
            r.0@ == self@[i as int].0,
            *r.1 == self@[i as int].1,
    {
        proof {
            use_type_invariant(self);
        }
        (self.keys[i].as_str(), &self.values[i])
    }
}

/// Whether two values are equal: tables compare by their key/value pairs
/// whatever their order, everything else by its contents.
pub open spec fn value_eq(a: Value, b: Value) -> bool
    decreases a, 1int,
{
    if a is Array {
        &&& b is Array
        &&& a->Array_0@.len() == b->Array_0@.len()
        &&& forall|i: int|
            #![trigger a->Array_0@[i]]
            0 <= i < a->Array_0@.len() ==> value_eq(a->Array_0@[i], b->Array_0@[i])
    } else if a is Table {
        b is Table && table_eq(a->Table_0, b->Table_0)
    } else {
        match a {
            Value::String(x) => b matches Value::String(y) && x@ == y@,
            Value::Integer(x) => b matches Value::Integer(y) && x == y,
            Value::Float(x) => b matches Value::Float(y) && x@ == y@,
            Value::Boolean(x) => b matches Value::Boolean(y) && x == y,
            Value::Datetime(x) => b matches Value::Datetime(y) && x == y,
            _ => false,
        }
    }
}

/// Whether two tables hold the same key/value pairs, whatever their order.
pub closed spec fn table_eq(x: Table, y: Table) -> bool
    decreases x, 0int,
{
    x.values@.len() == y@.len() && forall|i: int|
        #![trigger x.values@[i]]
        0 <= i < x.values@.len() ==> (has_key(y@, x.keys@[i]@) && value_eq(
            x.values@[i],
            lookup(y@, x.keys@[i]@)->0,
        ))
}

/// What table equality means, entry by entry.
pub proof fn lemma_table_eq(x: Table, y: Table)
    ensures
        table_eq(x, y) == (x@.len() == y@.len() && forall|i: int|
            0 <= i < x@.len() ==> (#[trigger] has_key(y@, x@[i].0) && value_eq(
                x@[i].1,
                lookup(y@, x@[i].0)->0,
            ))),
{
    assert(x@.len() == x.values@.len());
    assert forall|i: int| 0 <= i < x@.len() implies x@[i].0 == x.keys@[i]@ && x@[i].1
        == x.values@[i] by {}
    if table_eq(x, y) {
        assert forall|i: int| 0 <= i < x@.len() implies (#[trigger] has_key(y@, x@[i].0) && value_eq(
                x@[i].1,
                lookup(y@, x@[i].0)->0,
            )) by {
            assert(has_key(y@, x.keys@[i]@));
        }
    } else if x@.len() == y@.len() {
        let i = choose|i: int| 0 <= i < x.values@.len() && !(#[trigger] has_key(y@, x.keys@[i]@) && value_eq(
            x.values@[i],
            lookup(y@, x.keys@[i]@)->0,
        ));
        assert(!(has_key(y@, x@[i].0) && value_eq(x@[i].1, lookup(y@, x@[i].0)->0)));
    }
}

/// Element-wise equality of two value sequences.
pub open spec fn values_eq(a: Seq<Value>, b: Seq<Value>) -> bool {
    a.len() == b.len() && forall|i: int| 0 <= i < a.len() ==> #[trigger] value_eq(a[i], b[i])
}

/// Whether two values are equal, in the sense of [`value_eq`].
pub fn values_equal(a: &Value, b: &Value) -> (r: bool)
    ensures
        r == value_eq(*a, *b),
    decreases *a, 1int,
{
    match a {
        Value::String(x) => match b {
            Value::String(y) => {
                let xs = str_chars(x.as_str());
                let ys = str_chars(y.as_str());
                assert(value_eq(*a, *b) == (x@ == y@));
                chars_eq(&xs, &ys)
            },
            _ => false,
        },
        Value::Integer(x) => match b {
            Value::Integer(y) => {
                let r = *x == *y;
                assert(r == value_eq(*a, *b));
                r
            },
            _ => false,
        },
        Value::Float(x) => match b {
            Value::Float(y) => {
                let xs = str_chars(x.as_str());
                let ys = str_chars(y.as_str());
                chars_eq(&xs, &ys)
            },
            _ => false,
        },
        Value::Boolean(x) => match b {
            Value::Boolean(y) => *x == *y,
            _ => false,
        },
        Value::Datetime(x) => match b {
            Value::Datetime(y) => {
                let r = *x == *y;
                assert(r == value_eq(*a, *b));
                r
            },
            _ => false,
        },
        Value::Array(xs) => match b {
            Value::Array(ys) => {
                if xs.len() != ys.len() {
                    return false;
                }
                let mut i: usize = 0;
                while i < xs.len()
                    invariant
                        i <= xs.len() == ys.len(),
                        *a == Value::Array(*xs),
                        *b == Value::Array(*ys),
                        forall|j: int| #![trigger xs@[j]] 0 <= j < i ==> value_eq(xs@[j], ys@[j]),
                    decreases xs.len() - i,
                {
                    proof {
                        assert(decreases_to!(*xs => xs[i as int]));
                        assert(decreases_to!(*a => a->Array_0));
                    }
                    if !values_equal(&xs[i], &ys[i]) {
                        return false;
                    }
                    i += 1;
                }
                assert forall|j: int| #![trigger xs@[j]] 0 <= j < xs@.len() implies value_eq(xs@[j], ys@[j]) by {
                    assert(value_eq(xs@[j], ys@[j]));
                }
                true
            },
            _ => false,
        },
        Value::Table(x) => match b {
            Value::Table(y) => {
                let r = tables_equal(x, y);
                assert(r == value_eq(*a, *b));
                r
            },
            _ => false,
        },
    }
}

/// Whether two tables hold the same key/value pairs, whatever their order.
pub fn tables_equal(x: &Table, y: &Table) -> (r: bool)
    ensures
        r == table_eq(*x, *y),
    decreases *x, 0int,
{
    proof {
        use_type_invariant(x);
    }
    if x.values.len() != y.len() {
        return false;
    }
    let mut i: usize = 0;
    while i < x.values.len()
        invariant
            i <= x.values.len(),
            x.keys@.len() == x.values@.len(),
            x.values@.len() == y@.len(),
            forall|j: int|
                0 <= j < i ==> (#[trigger] has_key(y@, x.keys@[j]@) && value_eq(
                    x.values@[j],
                    lookup(y@, x.keys@[j]@)->0,
                )),
        decreases x.values.len() - i,
    {
        let k = str_chars(x.keys[i].as_str());
        match y.get_chars(&k) {
            Some(w) => {
                proof {
                    assert(decreases_to!(*x => x.values));
                    assert(decreases_to!(x.values => x.values@));
                    assert(decreases_to!(x.values@ => x.values@[i as int]));
                }
                if !values_equal(&x.values[i], w) {
                    return false;
                }
            },
            None => {
                return false;
            },
        }
        i += 1;
    }
    true
}

/// Whether two character vectors hold the same characters.
pub fn chars_eq(a: &Vec<char>, b: &Vec<char>) -> (r: bool)
    ensures
        r == (a@ == b@),
{
    if a.len() != b.len() {
        return false;
    }
    let mut i: usize = 0;
    while i < a.len()
        invariant
            a.len() == b.len(),
            i <= a.len(),
            forall|j: int| 0 <= j < i ==> a@[j] == b@[j],
        decreases a.len() - i,
    {
        if a[i] != b[i] {
            return false;
        }
        i += 1;
    }
    assert(a@ =~= b@);
    true
}

} // verus!

verus! {

impl PartialEq for Value {
    fn eq(&self, other: &Value) -> (r: bool) {
        values_equal(self, other)
    }
}

impl vstd::std_specs::cmp::PartialEqSpecImpl for Value {
    open spec fn obeys_eq_spec() -> bool {
        true
    }

    open spec fn eq_spec(&self, other: &Value) -> bool {
        value_eq(*self, *other)
    }
}

/// Tables are equal when they hold the same entries, whatever their order.
impl PartialEq for Table {
    fn eq(&self, other: &Table) -> (r: bool) {
        tables_equal(self, other)
    }
}

impl vstd::std_specs::cmp::PartialEqSpecImpl for Table {
    open spec fn obeys_eq_spec() -> bool {
        true
    }

    open spec fn eq_spec(&self, other: &Table) -> bool {
        table_eq(*self, *other)
    }
}

impl<'a> core::ops::Index<&'a str> for Table {
    type Output = Value;

    /// Looks up a key, which must be present; use [`Table::get`] when it may
    /// not be.
    fn index(&self, key: &'a str) -> (v: &Value)
        ensures
            lookup(self@, key@) == Some(*v),
    {
        self.get(key).unwrap()
    }
}

impl<'a> vstd::std_specs::core::IndexSpecImpl<&'a str> for Table {
    open spec fn index_req(&self, key: &&'a str) -> bool {
        has_key(self@, (*key)@)
    }
}

} // verus!

verus! {

/// The entries that inserting the first `n` pairs in order makes, each
/// value as `into` turns it into a [`Value`].
pub open spec fn pairs_inserted<'a, V: Into<Value>>(pairs: Seq<(&'a str, V)>, n: int) -> Seq<(Seq<char>, Value)>
    decreases n,
{
    if n <= 0 || n > pairs.len() {
        Seq::empty()
    } else {
        inserted(pairs_inserted(pairs, n - 1), pairs[n - 1].0@, <V as IntoSpec<Value>>::into_spec(pairs[n - 1].1))
    }
}

/// The entries after `k` is set to `v`: replaced in place when present,
/// appended otherwise.
pub open spec fn inserted(e: Seq<(Seq<char>, Value)>, k: Seq<char>, v: Value) -> Seq<(Seq<char>, Value)> {
    if has_key(e, k) {
        e.update(key_index(e, k), (k, v))
    } else {
        e.push((k, v))
    }
}

/// The entries after `k` is taken out, the others keeping their order.
pub open spec fn removed(e: Seq<(Seq<char>, Value)>, k: Seq<char>) -> Seq<(Seq<char>, Value)> {
    if has_key(e, k) {
        e.remove(key_index(e, k))
    } else {
        e
    }
}

/// Entries whose keys agree position by position have their keys first at
/// the same places.
proof fn lemma_same_keys(e: Seq<(Seq<char>, Value)>, e2: Seq<(Seq<char>, Value)>, k: Seq<char>)
    requires
        e.len() <= e2.len(),
        forall|j: int| 0 <= j < e.len() ==> #[trigger] e2[j].0 == e[j].0,
        has_key(e, k),
    ensures
        has_key(e2, k),
        key_index(e2, k) == key_index(e, k),
{
    lemma_key_index(e, k);
    let i = key_index(e, k);
    assert(e2[i].0 == k);
    lemma_key_index(e2, k);
    let i2 = key_index(e2, k);
    if i2 < i {
        assert(e[i2].0 == e2[i2].0);
    } else if i2 > i {
        assert(e2[i].0 != k);
    }
}

/// Looking up in entries where one value changed in place, at the first
/// position of its key; repeated keys or not.
pub proof fn lemma_lookup_updated(e: Seq<(Seq<char>, Value)>, i: int, v: Value, other: Seq<char>)
    requires
        0 <= i < e.len(),
        key_index(e, e[i].0) == i,
    ensures
        has_key(e.update(i, (e[i].0, v)), other) == has_key(e, other),
        lookup(e.update(i, (e[i].0, v)), other) == if other == e[i].0 {
            Some(v)
        } else {
            lookup(e, other)
        },
{
    let e2 = e.update(i, (e[i].0, v));
    assert forall|j: int| 0 <= j < e.len() implies #[trigger] e2[j].0 == e[j].0 by {}
    if has_key(e, other) {
        lemma_same_keys(e, e2, other);
        lemma_key_index(e, other);
        if other == e[i].0 {
            assert(has_key(e, e[i].0));
        } else {
            assert(key_index(e, other) != i);
        }
    } else if has_key(e2, other) {
        let j = choose|j: int| 0 <= j < e2.len() && #[trigger] e2[j].0 == other;
        assert(e[j].0 == other);
    }
}

/// Reading back a write in any entries, repeated keys or not: after setting
/// `k` to `v`, looking up `k` gives `v` and every other key gives what it
/// gave before.
pub proof fn lemma_lookup_inserted(e: Seq<(Seq<char>, Value)>, k: Seq<char>, v: Value, other: Seq<char>)
    ensures
        has_key(inserted(e, k, v), other) == (other == k || has_key(e, other)),
        lookup(inserted(e, k, v), other) == if other == k {
            Some(v)
        } else {
            lookup(e, other)
        },
{
    if has_key(e, k) {
        lemma_key_index(e, k);
        let i = key_index(e, k);
        assert(e.update(i, (k, v)) == e.update(i, (e[i].0, v)));
        lemma_lookup_updated(e, i, v, other);
    } else {
        let e2 = e.push((k, v));
        let n = e.len() as int;
        assert(e2[n].0 == k);
        if other == k {
            lemma_key_index(e2, k);
            let j = key_index(e2, k);
            if j < n {
                assert(e[j].0 == k);
            }
        } else if has_key(e, other) {
            lemma_same_keys(e, e2, other);
            lemma_key_index(e, other);
        } else if has_key(e2, other) {
            let j = choose|j: int| 0 <= j < e2.len() && #[trigger] e2[j].0 == other;
            assert(e[j].0 == other);
        }
    }
}

/// Where `k` sits in a table without repeated keys, when it is at `j`.
proof fn lemma_index_unique(e: Seq<(Seq<char>, Value)>, j: int, k: Seq<char>)
    requires
        distinct_keys(e),
        0 <= j < e.len(),
        e[j].0 == k,
    ensures
        has_key(e, k),
        key_index(e, k) == j,
        lookup(e, k) == Some(e[j].1),
{
    lemma_lookup_at(e, j);
}

/// Reading back a write: after setting `k` to `v`, looking up `k` gives `v`,
/// every other key gives what it gave before, and no key occurs twice.
pub proof fn law_lookup_after_insert(e: Seq<(Seq<char>, Value)>, k: Seq<char>, v: Value, other: Seq<char>)
    requires
        distinct_keys(e),
    ensures
        distinct_keys(inserted(e, k, v)),
        lookup(inserted(e, k, v), k) == Some(v),
        other != k ==> lookup(inserted(e, k, v), other) == lookup(e, other),
{
    let e2 = inserted(e, k, v);
    if has_key(e, k) {
        let i = key_index(e, k);
        assert forall|a: int, b: int| 0 <= a < b < e2.len() implies #[trigger] e2[a].0 != #[trigger] e2[b].0 by {
            assert(e[a].0 != e[b].0);
        }
        lemma_index_unique(e2, i, k);
        if other != k && has_key(e, other) {
            let j = key_index(e, other);
            lemma_index_unique(e2, j, other);
        } else if other != k {
            if has_key(e2, other) {
                let j = key_index(e2, other);
                assert(e[j].0 == other);
            }
        }
    } else {
        let n = e.len() as int;
        assert forall|a: int, b: int| 0 <= a < b < e2.len() implies #[trigger] e2[a].0 != #[trigger] e2[b].0 by {
            if b == n {
                assert(e[a].0 != k);
            } else {
                assert(e[a].0 != e[b].0);
            }
        }
        lemma_index_unique(e2, n, k);
        if other != k && has_key(e, other) {
            let j = key_index(e, other);
            lemma_index_unique(e2, j, other);
        } else if other != k {
            if has_key(e2, other) {
                let j = key_index(e2, other);
                assert(j < n);
                assert(e[j].0 == other);
            }
        }
    }
}

/// Setting a key keeps the order of the keys: one already present stays
/// where it was, a new one goes last.
pub proof fn law_insert_keeps_key_order(e: Seq<(Seq<char>, Value)>, k: Seq<char>, v: Value)
    ensures
        keys_of(inserted(e, k, v)) == if has_key(e, k) {
            keys_of(e)
        } else {
            keys_of(e).push(k)
        },
{
    let e2 = inserted(e, k, v);
    if has_key(e, k) {
        lemma_key_index(e, k);
        assert(keys_of(e2) =~= keys_of(e));
    } else {
        assert(keys_of(e2) =~= keys_of(e).push(k));
    }
}

/// Taking a key out: looking it up then finds nothing, every other key
/// gives what it gave before, and no key occurs twice.
pub proof fn law_lookup_after_remove(e: Seq<(Seq<char>, Value)>, k: Seq<char>, other: Seq<char>)
    requires
        distinct_keys(e),
    ensures
        distinct_keys(removed(e, k)),
        lookup(removed(e, k), k) is None,
        other != k ==> lookup(removed(e, k), other) == lookup(e, other),
{
    let e2 = removed(e, k);
    if has_key(e, k) {
        let i = key_index(e, k);
        assert forall|a: int, b: int| 0 <= a < b < e2.len() implies #[trigger] e2[a].0 != #[trigger] e2[b].0 by {
            let oa = if a < i { a } else { a + 1 };
            let ob = if b < i { b } else { b + 1 };
            assert(e[oa].0 != e[ob].0);
        }
        if has_key(e2, k) {
            let j = key_index(e2, k);
            let oj = if j < i { j } else { j + 1 };
            assert(e[oj].0 == k);
            lemma_index_unique(e, oj, k);
        }
        if other != k && has_key(e, other) {
            let j = key_index(e, other);
            assert(j != i);
            let nj = if j < i { j } else { j - 1 };
            assert(e2[nj].0 == other);
            lemma_index_unique(e2, nj, other);
        } else if other != k {
            if has_key(e2, other) {
                let j = key_index(e2, other);
                let oj = if j < i { j } else { j + 1 };
                assert(e[oj].0 == other);
            }
        }
    }
}

} // verus!

verus! {

/// Whether key `a` comes before key `b`: character by character, by code
/// point, a proper prefix first. This is how Rust orders strings.
pub open spec fn key_lt(a: Seq<char>, b: Seq<char>) -> bool
    decreases a.len(),
{
    if b.len() == 0 {
        false
    } else if a.len() == 0 {
        true
    } else if a[0] != b[0] {
        a[0] < b[0]
    } else {
        key_lt(a.drop_first(), b.drop_first())
    }
}

/// No key comes before itself, and of two different keys one comes first.
pub proof fn lemma_key_lt_total(a: Seq<char>, b: Seq<char>)
    ensures
        !key_lt(a, a),
        a != b ==> (key_lt(a, b) || key_lt(b, a)),
        !(key_lt(a, b) && key_lt(b, a)),
    decreases a.len(),
{
    if a.len() > 0 && b.len() > 0 {
        lemma_key_lt_total(a.drop_first(), b.drop_first());
        if a != b && a[0] == b[0] {
            assert(a.drop_first() != b.drop_first()) by {
                if a.drop_first() == b.drop_first() {
                    assert(a =~= seq![a[0]] + a.drop_first());
                    assert(b =~= seq![b[0]] + b.drop_first());
                }
            }
        }
    } else if a.len() > 0 {
        lemma_key_lt_total(a.drop_first(), a.drop_first());
    } else if b.len() > 0 {
    } else {
        assert(a =~= b);
    }
}

/// The order of keys is transitive.
pub proof fn lemma_key_lt_transitive(a: Seq<char>, b: Seq<char>, c: Seq<char>)
    requires
        key_lt(a, b),
        key_lt(b, c),
    ensures
        key_lt(a, c),
    decreases a.len(),
{
    if a.len() > 0 && b.len() > 0 && c.len() > 0 && a[0] == b[0] && b[0] == c[0] {
        lemma_key_lt_transitive(a.drop_first(), b.drop_first(), c.drop_first());
    }
}

/// Whether the keys are in strictly increasing order.
pub open spec fn sorted_keys(e: Seq<(Seq<char>, Value)>) -> bool {
    forall|i: int, j: int| 0 <= i < j < e.len() ==> key_lt(#[trigger] e[i].0, #[trigger] e[j].0)
}

/// Whether key `a` comes before key `b`; see [`key_lt`].
fn key_less(a: &str, b: &str) -> (r: bool)
    ensures
        r == key_lt(a@, b@),
{
    let x = str_chars(a);
    let y = str_chars(b);
    let mut i: usize = 0;
    assert(x@.skip(0) =~= x@);
    assert(y@.skip(0) =~= y@);
    while i < x.len() && i < y.len()
        invariant
            x@ == a@,
            y@ == b@,
            i <= x.len(),
            i <= y.len(),
            forall|k: int| 0 <= k < i ==> x@[k] == y@[k],
            key_lt(a@, b@) == key_lt(x@.skip(i as int), y@.skip(i as int)),
        decreases x.len() - i,
    {
        if x[i] != y[i] {
            assert(x@.skip(i as int)[0] == x@[i as int]);
            assert(y@.skip(i as int)[0] == y@[i as int]);
            return x[i] < y[i];
        }
        assert(x@.skip(i as int).drop_first() =~= x@.skip(i + 1));
        assert(y@.skip(i as int).drop_first() =~= y@.skip(i + 1));
        i += 1;
    }
    i < y.len()
}

/// The entries a closure keeps: entry `i` stays exactly when `flags[i]`.
pub open spec fn kept(e: Seq<(Seq<char>, Value)>, flags: Seq<bool>) -> Seq<(Seq<char>, Value)>
    decreases e.len(),
{
    if e.len() == 0 || flags.len() == 0 {
        Seq::empty()
    } else {
        let rest = kept(e.drop_last(), flags.drop_last());
        if flags.last() {
            rest.push(e.last())
        } else {
            rest
        }
    }
}

/// The keys and values of some entries.
pub open spec fn views(e: Seq<(String, Value)>) -> Seq<(Seq<char>, Value)> {
    e.map_values(|p: (String, Value)| (p.0@, p.1))
}

/// Where an entry of `sv + dv` came from once `sv[m]` moved to the end.
proof fn lemma_moved_distinct(sv: Seq<(Seq<char>, Value)>, dv: Seq<(Seq<char>, Value)>, m: int)
    requires
        0 <= m < sv.len(),
        distinct_keys(sv + dv),
    ensures
        distinct_keys(sv.remove(m) + dv.push(sv[m])),
{
    let sv2 = sv.remove(m);
    let dv2 = dv.push(sv[m]);
    let n = sv2.len() as int;
    let all = sv + dv;
    let all2 = sv2 + dv2;
    assert forall|a: int, b: int| 0 <= a < b < all2.len() implies #[trigger] all2[a].0 != #[trigger] all2[b].0 by {
        let oa = if a < n { if a < m { a } else { a + 1 } } else if a - n < dv.len() { sv.len() + (a - n) } else { m };
        let ob = if b < n { if b < m { b } else { b + 1 } } else if b - n < dv.len() { sv.len() + (b - n) } else { m };
        assert(all2[a] == all[oa]);
        assert(all2[b] == all[ob]);
        if oa < ob {
            assert(all[oa].0 != all[ob].0);
        } else {
            assert(all[ob].0 != all[oa].0);
        }
    }
}

/// Whatever a closure keeps was there to begin with.
proof fn lemma_kept_within(e: Seq<(Seq<char>, Value)>, flags: Seq<bool>)
    ensures
        forall|j: int| 0 <= j < kept(e, flags).len() ==> e.contains(#[trigger] kept(e, flags)[j]),
    decreases e.len(),
{
    if e.len() > 0 && flags.len() > 0 {
        let e2 = e.drop_last();
        let f2 = flags.drop_last();
        lemma_kept_within(e2, f2);
        let rest = kept(e2, f2);
        let k = kept(e, flags);
        assert forall|j: int| 0 <= j < k.len() implies e.contains(#[trigger] k[j]) by {
            if j < rest.len() {
                assert(k[j] == rest[j]);
                assert(e2.contains(rest[j]));
                let q = choose|q: int| 0 <= q < e2.len() && e2[q] == rest[j];
                assert(e[q] == e2[q]);
            } else {
                assert(k[j] == e[e.len() - 1]);
            }
        }
    }
}

/// Moving the first entry out of a vector of entries.
proof fn lemma_views_remove_first(s: Seq<(String, Value)>)
    requires
        s.len() > 0,
    ensures
        views(s.remove(0)) == views(s).drop_first(),
{
    assert(views(s.remove(0)) =~= views(s).drop_first());
}

/// Pushing an entry onto a vector of entries.
proof fn lemma_views_push(s: Seq<(String, Value)>, x: (String, Value))
    ensures
        views(s.push(x)) == views(s).push((x.0@, x.1)),
{
    assert(views(s.push(x)) =~= views(s).push((x.0@, x.1)));
}

/// Keeping some entries of a table without repeated keys repeats none.
proof fn lemma_kept_distinct(e: Seq<(Seq<char>, Value)>, flags: Seq<bool>)
    requires
        distinct_keys(e),
    ensures
        distinct_keys(kept(e, flags)),
    decreases e.len(),
{
    if e.len() > 0 && flags.len() > 0 {
        let e2 = e.drop_last();
        assert(distinct_keys(e2)) by {
            assert forall|a: int, b: int| 0 <= a < b < e2.len() implies #[trigger] e2[a].0 != #[trigger] e2[b].0 by {
                assert(e[a].0 != e[b].0);
            }
        }
        lemma_kept_distinct(e2, flags.drop_last());
        lemma_kept_within(e2, flags.drop_last());
        let rest = kept(e2, flags.drop_last());
        if flags.last() {
            let k = rest.push(e.last());
            assert forall|a: int, b: int| 0 <= a < b < k.len() implies #[trigger] k[a].0 != #[trigger] k[b].0 by {
                if b == rest.len() {
                    assert(e2.contains(rest[a]));
                    let q = choose|q: int| 0 <= q < e2.len() && e2[q] == rest[a];
                    assert(e[q].0 != e[e.len() - 1].0);
                } else {
                    assert(rest[a].0 != rest[b].0);
                }
            }
        }
    }
}

/// Whether a closure, called on an entry with key `key` and value `value`,
/// may answer `b`.
pub open spec fn keeps<F: Fn(&str, &Value) -> bool>(keep: F, key: Seq<char>, value: Value, b: bool) -> bool {
    exists|k: &str| k@ == key && #[trigger] keep.ensures((k, &value), b)
}

/// What a key looks up in entries it holds, another arrangement of the
/// same entries looks up too.
proof fn lemma_same_entries_lookup(a: Seq<(Seq<char>, Value)>, b: Seq<(Seq<char>, Value)>, k: Seq<char>)
    requires
        distinct_keys(a),
        distinct_keys(b),
        a.to_multiset() == b.to_multiset(),
        has_key(a, k),
    ensures
        lookup(b, k) == lookup(a, k),
{
    broadcast use vstd::seq_lib::group_to_multiset_ensures;

    lemma_key_index(a, k);
    let i = key_index(a, k);
    assert(a.contains(a[i]));
    assert(a.to_multiset().count(a[i]) > 0);
    assert(b.contains(a[i]));
    let j = choose|j: int| 0 <= j < b.len() && b[j] == a[i];
    lemma_lookup_at(b, j);
}

/// Sorting the keys of a table changes no lookup: entries without a
/// repeated key, rearranged, give every key the value it had.
pub proof fn law_sort_keeps_lookups(a: Seq<(Seq<char>, Value)>, b: Seq<(Seq<char>, Value)>, k: Seq<char>)
    requires
        distinct_keys(a),
        distinct_keys(b),
        b.to_multiset() == a.to_multiset(),
    ensures
        lookup(b, k) == lookup(a, k),
{
    if has_key(a, k) {
        lemma_same_entries_lookup(a, b, k);
    } else if has_key(b, k) {
        lemma_same_entries_lookup(b, a, k);
    }
}

impl Table {
    /// Sorts the entries by key, changing the order they iterate and
    /// serialize in.
    pub fn sort_keys(&mut self)
        ensures
            final(self)@.to_multiset() == old(self)@.to_multiset(),
            sorted_keys(final(self)@),
    {
        proof {
            use_type_invariant(&*self);
        }
        broadcast use vstd::seq_lib::group_to_multiset_ensures;

        let mut src = self.take_entries();
        let ghost orig = old(self)@;
        let mut dst: Vec<(String, Value)> = Vec::new();
        assert(views(dst@).to_multiset() =~= Multiset::<(Seq<char>, Value)>::empty());
        assert(views(src@) + views(dst@) =~= views(src@));
        while src.len() > 0
            invariant
                distinct_keys(views(src@) + views(dst@)),
                views(dst@).to_multiset().add(views(src@).to_multiset()) == orig.to_multiset(),
                sorted_keys(views(dst@)),
                forall|i: int, j: int|
                    0 <= i < dst@.len() && 0 <= j < src@.len() ==> key_lt(
                        #[trigger] views(dst@)[i].0,
                        #[trigger] views(src@)[j].0,
                    ),
            decreases src@.len(),
        {
            let ghost sv = views(src@);
            let ghost dv = views(dst@);
            let mut m: usize = 0;
            let mut i: usize = 1;
            while i < src.len()
                invariant
                    0 <= m < i <= src.len(),
                    sv == views(src@),
                    distinct_keys(sv + dv),
                    forall|j: int| 0 <= j < i && j != m ==> key_lt(sv[m as int].0, #[trigger] sv[j].0),
                decreases src.len() - i,
            {
                if key_less(src[i].0.as_str(), src[m].0.as_str()) {
                    proof {
                        assert forall|j: int| 0 <= j < i + 1 && j != i implies key_lt(
                            sv[i as int].0,
                            #[trigger] sv[j].0,
                        ) by {
                            if j != m {
                                lemma_key_lt_transitive(sv[i as int].0, sv[m as int].0, sv[j].0);
                            }
                        }
                    }
                    m = i;
                } else {
                    proof {
                        assert((sv + dv)[m as int].0 != (sv + dv)[i as int].0);
                        lemma_key_lt_total(sv[i as int].0, sv[m as int].0);
                    }
                }
                i += 1;
            }
            let x = src.remove(m);
            let ghost xv = (x.0@, x.1);
            dst.push(x);
            proof {
                let sv2 = views(src@);
                let dv2 = views(dst@);
                assert(sv2 =~= sv.remove(m as int));
                assert(dv2 =~= dv.push(xv));
                assert(sv[m as int] == xv);
                lemma_moved_distinct(sv, dv, m as int);
                assert(sv.contains(xv));
                vstd::seq_lib::to_multiset_remove(sv, m as int);
                vstd::seq_lib::to_multiset_build(dv, xv);
                vstd::seq_lib::to_multiset_contains(sv, xv);
                broadcast use vstd::multiset::group_multiset_axioms;
                assert(dv2.to_multiset().add(sv2.to_multiset()) =~= dv.to_multiset().add(
                    sv.to_multiset(),
                ));
                assert forall|a: int, b: int| 0 <= a < b < dv2.len() implies key_lt(
                    #[trigger] dv2[a].0,
                    #[trigger] dv2[b].0,
                ) by {
                    if b < dv.len() {
                        assert(key_lt(dv[a].0, dv[b].0));
                    } else {
                        assert(key_lt(dv[a].0, sv[m as int].0));
                    }
                }
                assert forall|a: int, b: int| 0 <= a < dv2.len() && 0 <= b < sv2.len() implies key_lt(
                    #[trigger] dv2[a].0,
                    #[trigger] sv2[b].0,
                ) by {
                    let ob = if b < m { b } else { b + 1 };
                    assert(sv2[b] == sv[ob]);
                    if a < dv.len() {
                        assert(key_lt(dv[a].0, sv[ob].0));
                    } else {
                        assert(key_lt(sv[m as int].0, sv[ob].0));
                    }
                }
            }
        }
        assert(views(src@) =~= Seq::<(Seq<char>, Value)>::empty());
        assert(views(src@) + views(dst@) =~= views(dst@));
        self.put_entries(dst);
    }

    /// Keeps the entries for which `keep` says so, in their order.
    pub fn retain<F: Fn(&str, &Value) -> bool>(&mut self, keep: F)
        requires
            forall|k: &str, v: &Value| #[trigger] keep.requires((k, v)),
        ensures
            exists|flags: Seq<bool>|
                #![trigger kept(old(self)@, flags)]
                flags.len() == old(self)@.len() && final(self)@ == kept(old(self)@, flags) && (forall|i: int|
                    0 <= i < flags.len() ==> #[trigger] keeps(keep, old(self)@[i].0, old(self)@[i].1, flags[i])),
    {
        proof {
            use_type_invariant(&*self);
        }
        let mut src = self.take_entries();
        let ghost orig = old(self)@;
        let mut dst: Vec<(String, Value)> = Vec::new();
        let ghost mut flags: Seq<bool> = Seq::empty();
        let total = src.len();
        let mut n: usize = 0;
        assert(views(src@) =~= orig.skip(0));
        assert(views(dst@) =~= kept(orig.take(0), flags));
        while n < total
            invariant
                total == orig.len(),
                n <= total,
                views(src@) == orig.skip(n as int),
                flags.len() == n,
                views(dst@) == kept(orig.take(n as int), flags),
                forall|k: &str, v: &Value| #[trigger] keep.requires((k, v)),
                forall|i: int| 0 <= i < n ==> #[trigger] keeps(keep, orig[i].0, orig[i].1, flags[i]),
            decreases total - n,
        {
            let ghost src_old = src@;
            let ghost dst_old = dst@;
            let ghost old_flags = flags;
            assert(views(src@).len() == src@.len());
            let (key, value) = src.remove(0);
            proof {
                lemma_views_remove_first(src_old);
                assert(views(src_old)[0] == orig[n as int]);
                assert(views(src_old)[0] == (key@, value));
            }
            let ks = key.as_str();
            let b = keep(ks, &value);
            proof {
                assert(ks@ == orig[n as int].0);
                assert(value == orig[n as int].1);
                assert(keep.ensures((ks, &orig[n as int].1), b));
                flags = flags.push(b);
                assert(orig.take(n + 1).drop_last() =~= orig.take(n as int));
                assert(flags.drop_last() =~= old_flags);
                assert(orig.take(n + 1).last() == orig[n as int]);
                assert(views(src@) =~= orig.skip(n + 1));
                assert(keeps(keep, orig[n as int].0, orig[n as int].1, b));
                assert forall|i: int| 0 <= i < n + 1 implies #[trigger] keeps(
                    keep,
                    orig[i].0,
                    orig[i].1,
                    flags[i],
                ) by {
                    if i < n {
                        assert(flags[i] == old_flags[i]);
                    }
                }
            }
            if b {
                dst.push((key, value));
                proof {
                    lemma_views_push(dst_old, (key, value));
                }
            }
            n += 1;
        }
        assert(orig.take(total as int) =~= orig);
        proof {
            lemma_kept_distinct(orig, flags);
        }
        self.put_entries(dst);
        assert(self@ == kept(orig, flags));
        assert(forall|i: int| 0 <= i < flags.len() ==> #[trigger] keeps(keep, orig[i].0, orig[i].1, flags[i]));

    }
}
} // verus!

verus! {

/// A view into one entry of a [`Table`], vacant or occupied.
///
/// Created by [`Table::entry`].
#[derive(Debug)]
pub enum Entry<'a> {
    /// The key is not in the table.
    Vacant(VacantEntry<'a>),
    /// The key is in the table.
    Occupied(OccupiedEntry<'a>),
}

/// An entry for a key that is not in the table.
#[derive(Debug)]
pub struct VacantEntry<'a> {
    /// The table the key would go into.
    pub table: &'a mut Table,
    /// The key.
    pub key: String,
}

/// An entry for a key that is in the table.
#[derive(Debug)]
pub struct OccupiedEntry<'a> {
    /// The table that holds the key.
    pub table: &'a mut Table,
    /// The key's position in the table.
    pub index: usize,
}

impl Table {
    /// Returns the entry for `key`, so it can be inspected or filled in in
    /// one lookup.
    pub fn entry(&mut self, key: &str) -> (e: Entry<'_>)
        ensures
            match e {
                Entry::Vacant(v) => {
                    &&& !has_key(old(self)@, key@)
                    &&& v.key@ == key@
                    &&& *v.table == *old(self)
                    &&& *final(self) == *final(v.table)
                },
                Entry::Occupied(o) => {
                    &&& has_key(old(self)@, key@)
                    &&& o.index == key_index(old(self)@, key@)
                    &&& *o.table == *old(self)
                    &&& *final(self) == *final(o.table)
                },
            },
    {
        let k = str_chars(key);
        match self.position(&k) {
            Some(i) => Entry::Occupied(OccupiedEntry { table: self, index: i }),
            None => Entry::Vacant(VacantEntry { table: self, key: key.to_owned() }),
        }
    }
}

impl<'a> Entry<'a> {
    /// The key this entry is for.
    pub fn key(&self) -> (r: &str)
        requires
            self matches Entry::Occupied(o) ==> o.index < o.table@.len(),
        ensures
            match self {
                Entry::Vacant(v) => r@ == v.key@,
                Entry::Occupied(o) => r@ == o.table@[o.index as int].0,
            },
    {
        match self {
            Entry::Vacant(entry) => entry.key(),
            Entry::Occupied(entry) => entry.key(),
        }
    }

    /// Returns the value, inserting `default` first if the key was vacant.
    pub fn or_insert<V: Into<Value>>(self, default: V) -> (r: &'a mut Value)
        requires
            match self {
                Entry::Vacant(v) => !has_key(v.table@, v.key@),
                Entry::Occupied(o) => o.index < o.table@.len(),
            },
        ensures
            self is Vacant ==> {
                &&& call_ensures(V::into, (default,), *r)
                &&& final(self->Vacant_0.table)@ == old(self->Vacant_0.table)@.push(
                    (self->Vacant_0.key@, *final(r)),
                )
            },
            self is Occupied ==> {
                let o = self->Occupied_0;
                &&& *r == old(self->Occupied_0.table)@[o.index as int].1
                &&& final(self->Occupied_0.table)@ == old(self->Occupied_0.table)@.update(
                    o.index as int,
                    (old(self->Occupied_0.table)@[o.index as int].0, *final(r)),
                )
            },
    {
        match self {
            Entry::Vacant(entry) => entry.insert(default),
            Entry::Occupied(entry) => entry.into_mut(),
        }
    }

    /// Returns the value, inserting what `default` produces if the key was
    /// vacant.
    pub fn or_insert_with<V: Into<Value>, F: FnOnce() -> V>(self, default: F) -> (r: &'a mut Value)
        requires
            match self {
                Entry::Vacant(v) => !has_key(v.table@, v.key@) && default.requires(()),
                Entry::Occupied(o) => o.index < o.table@.len(),
            },
        ensures
            self is Vacant ==> {
                &&& exists|d: V| #[trigger] default.ensures((), d) && call_ensures(V::into, (d,), *r)
                &&& final(self->Vacant_0.table)@ == old(self->Vacant_0.table)@.push(
                    (self->Vacant_0.key@, *final(r)),
                )
            },
            self is Occupied ==> {
                let o = self->Occupied_0;
                &&& *r == old(self->Occupied_0.table)@[o.index as int].1
                &&& final(self->Occupied_0.table)@ == old(self->Occupied_0.table)@.update(
                    o.index as int,
                    (old(self->Occupied_0.table)@[o.index as int].0, *final(r)),
                )
            },
    {
        match self {
            Entry::Vacant(entry) => {
                let d = default();
                entry.insert(d)
            },
            Entry::Occupied(entry) => entry.into_mut(),
        }
    }

    /// Runs `f` on the value if the key was occupied, and returns the entry.
    pub fn and_modify<F: FnOnce(&mut Value)>(self, f: F) -> (r: Entry<'a>)
        requires
            self is Occupied ==> self->Occupied_0.index < self->Occupied_0.table@.len(),
            forall|v: &mut Value| #[trigger] f.requires((v,)),
        ensures
            self is Vacant ==> r == self,
            self is Occupied ==> {
                let o = self->Occupied_0;
                &&& r is Occupied
                &&& r->Occupied_0.index == o.index
                &&& *final(r->Occupied_0.table) == *final(self->Occupied_0.table)
                &&& exists|v: &mut Value|
                    #[trigger] f.ensures((v,), ())
                    && *v == old(self->Occupied_0.table)@[o.index as int].1
                    && r->Occupied_0.table@ == old(self->Occupied_0.table)@.update(
                        o.index as int,
                        (old(self->Occupied_0.table)@[o.index as int].0, *final(v)),
                    )
            },
    {
        match self {
            Entry::Vacant(entry) => Entry::Vacant(entry),
            Entry::Occupied(mut entry) => {
                f(entry.get_mut());
                Entry::Occupied(entry)
            },
        }
    }
}

impl<'a> VacantEntry<'a> {
    /// The key this entry is for.
    pub fn key(&self) -> (r: &str)
        ensures
            r@ == self.key@,
    {
        self.key.as_str()
    }

    /// The key this entry is for, given back.
    pub fn into_key(self) -> (r: String)
        ensures
            r == self.key,
    {
        self.key
    }

    /// Inserts a value and returns it, appending the key to the table's
    /// order. The value is whatever `value.into()` produces.
    pub fn insert<V: Into<Value>>(self, value: V) -> (r: &'a mut Value)
        requires
            !has_key(old(self.table)@, self.key@),
        ensures
            call_ensures(V::into, (value,), *r),
            final(self.table)@ == old(self.table)@.push((self.key@, *final(r))),
    {
        let table = self.table;
        let v: Value = value.into();
        table.insert_entry(self.key, v);
        let n = table.len();
        table.value_mut_at(n - 1)
    }
}


impl<'a> OccupiedEntry<'a> {
    /// The key this entry is for.
    pub fn key(&self) -> (r: &str)
        requires
            self.index < self.table@.len(),
        ensures
            r@ == old(self.table)@[self.index as int].0,
    {
        self.table.entry_at(self.index).0
    }

    /// The value.
    pub fn get(&self) -> (r: &Value)
        requires
            self.index < self.table@.len(),
        ensures
            *r == old(self.table)@[self.index as int].1,
    {
        self.table.entry_at(self.index).1
    }

    /// The value, mutably.
    pub fn get_mut(&mut self) -> (r: &mut Value)
        requires
            old(self).index < old(self).table@.len(),
        ensures
            final(self).index == old(self).index,
            *final(final(self).table) == *final(old(self).table),
            *r == old(self).table@[old(self).index as int].1,
            final(self).table@ == old(self).table@.update(
                old(self).index as int,
                (old(self).table@[old(self).index as int].0, *final(r)),
            ),
    {
        self.table.value_mut_at(self.index)
    }

    /// The value, mutably, for as long as the table is borrowed.
    pub fn into_mut(self) -> (r: &'a mut Value)
        requires
            self.index < old(self.table)@.len(),
        ensures
            *r == old(self.table)@[self.index as int].1,
            final(self.table)@ == old(self.table)@.update(
                self.index as int,
                (old(self.table)@[self.index as int].0, *final(r)),
            ),
    {
        self.table.value_mut_at(self.index)
    }

    /// Replaces the value, returning the old one and keeping the key's
    /// position. The new value is whatever `value.into()` produces.
    pub fn insert<V: Into<Value>>(&mut self, value: V) -> (previous: Value)
        requires
            old(self).index < old(self).table@.len(),
        ensures
            final(self).index == old(self).index,
            *final(final(self).table) == *final(old(self).table),
            previous == old(self).table@[old(self).index as int].1,
            exists|v: Value|
                #![trigger call_ensures(V::into, (value,), v)]
                call_ensures(V::into, (value,), v) && final(self).table@ == old(self).table@.update(
                    old(self).index as int,
                    (old(self).table@[old(self).index as int].0, v),
                ),
    {
        let v: Value = value.into();
        assert(call_ensures(V::into, (value,), v));
        self.table.replace_at(self.index, v)
    }

    /// Removes the entry and returns its value. The remaining entries keep
    /// their relative order.
    pub fn remove(self) -> (r: Value)
        requires
            self.index < old(self.table)@.len(),
        ensures
            r == old(self.table)@[self.index as int].1,
            final(self.table)@ == old(self.table)@.remove(self.index as int),
    {
        let table = self.table;
        let ghost before = table@;
        let (key, _) = table.entry_at(self.index);
        let key = key.to_owned();
        table.keys_are_distinct();
        proof {
            lemma_lookup_at(before, self.index as int);
        }
        match table.remove(key.as_str()) {
            Some(v) => v,
            None => {
                assert(false);
                Value::Boolean(false)
            },
        }
    }
}
}
