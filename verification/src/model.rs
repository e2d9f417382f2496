//! What a document means: the statements its lines hold, and the table that
//! applying them one after another builds, as mathematical objects.

use vstd::prelude::*;

use crate::map::{Table, has_key, key_index, inserted, lookup, lemma_key_index};
use crate::parser::{
    Step, value_at, path_value, applied, tree_has, tree_index, lemma_tree_index, lemma_view_keys,
    lemma_entries_view_push, lemma_entries_view_update, lemma_path_value_root,
};
use crate::value::{Tree, Value, tree_of, trees_of, entries_view, lemma_table_tree, lemma_trees_of};
use crate::parser::{value_tree, nesting, MAX_DEPTH, Seg, holds_path, Document, path_of, full_path, key_views, table_within};
use crate::grammar::{trivia_end, line_end, spaces_end, dotted_key};

verus! {

/// The tree reached from `w` by following the steps `p[k..]`.
pub open spec fn tree_get(w: Tree, p: Seq<Step>, k: int) -> Option<Tree>
    decreases p.len() - k,
{
    if k < 0 || k >= p.len() {
        Some(w)
    } else {
        match p[k] {
            Step::Key(key) => match w {
                Tree::Tab(es) => if tree_has(es, key) {
                    tree_get(es[tree_index(es, key)].1, p, k + 1)
                } else {
                    None
                },
                _ => None,
            },
            Step::Index(j) => match w {
                Tree::Arr(items) => if 0 <= j < items.len() {
                    tree_get(items[j], p, k + 1)
                } else {
                    None
                },
                _ => None,
            },
        }
    }
}

/// The entries `es` with `x` under `key`: in its place if the key is there,
/// at the end otherwise.
pub open spec fn tree_inserted(es: Seq<(Seq<char>, Tree)>, key: Seq<char>, x: Tree) -> Seq<(Seq<char>, Tree)> {
    if tree_has(es, key) {
        es.update(tree_index(es, key), (key, x))
    } else {
        es.push((key, x))
    }
}

/// Below `w`, the tree at `path[..k]`: `x` put under the last key of `path`
/// into the table it names (`push` false), or appended to the array at
/// `path` (`push` true). A path that leads nowhere changes nothing.
pub open spec fn tree_apply(w: Tree, path: Seq<Step>, k: int, x: Tree, push: bool) -> Tree
    decreases path.len() - k,
{
    if k >= path.len() {
        match w {
            Tree::Arr(items) => if push {
                Tree::Arr(items.push(x))
            } else {
                w
            },
            _ => w,
        }
    } else {
        match path[k] {
            Step::Key(key) => match w {
                Tree::Tab(es) => if !push && k + 1 == path.len() {
                    Tree::Tab(tree_inserted(es, key, x))
                } else if tree_has(es, key) {
                    let i = tree_index(es, key);
                    Tree::Tab(es.update(i, (key, tree_apply(es[i].1, path, k + 1, x, push))))
                } else {
                    w
                },
                _ => w,
            },
            Step::Index(j) => match w {
                Tree::Arr(items) => if 0 <= j < items.len() {
                    Tree::Arr(items.update(j, tree_apply(items[j], path, k + 1, x, push)))
                } else {
                    w
                },
                _ => w,
            },
        }
    }
}

/// Following a path through a value and through the tree it is agree.
pub proof fn lemma_tree_get(v: Value, p: Seq<Step>, k: int)
    requires
        0 <= k,
    ensures
        tree_get(tree_of(v), p, k) == match value_at(v, p, k) {
            Some(x) => Some(tree_of(x)),
            None => None,
        },
    decreases p.len() - k,
{
    if k < p.len() {
        match p[k] {
            Step::Key(key) => match v {
                Value::Table(t) => {
                    lemma_table_tree(t);
                    lemma_view_keys(t@, key);
                    if has_key(t@, key) {
                        lemma_key_index(t@, key);
                        let i = key_index(t@, key);
                        assert(entries_view(t@)[i].1 == tree_of(t@[i].1));
                        lemma_tree_get(t@[i].1, p, k + 1);
                    }
                },
                _ => {},
            },
            Step::Index(j) => match v {
                Value::Array(a) => {
                    lemma_trees_of(a@);
                    if 0 <= j < a@.len() {
                        lemma_tree_get(a@[j], p, k + 1);
                    }
                },
                _ => {},
            },
        }
    }
}

/// What a path leads to in a document, read through its tree.
pub proof fn lemma_tree_path(root: Table, p: Seq<Step>)
    requires
        p.len() > 0,
    ensures
        tree_get(tree_of(Value::Table(root)), p, 0) == match path_value(root, p) {
            Some(x) => Some(tree_of(x)),
            None => None,
        },
{
    lemma_path_value_root(root, p);
    lemma_tree_get(Value::Table(root), p, 0);
}

/// Applying a change to a value and to the tree it is agree.
pub(crate) proof fn lemma_tree_apply(old: Value, new: Value, path: Seq<Step>, k: int, x: Value, push: bool)
    requires
        0 <= k,
        applied(old, new, path, k, x, push),
    ensures
        tree_of(new) == tree_apply(tree_of(old), path, k, tree_of(x), push),
    decreases path.len() - k,
{
    if k >= path.len() {
        if push && old is Array {
            lemma_trees_of(old->Array_0@);
            lemma_trees_of(new->Array_0@);
            assert(trees_of(new->Array_0@) =~= trees_of(old->Array_0@).push(tree_of(x)));
        }
    } else {
        match path[k] {
            Step::Key(key) => match old {
                Value::Table(t) => {
                    lemma_table_tree(t);
                    lemma_view_keys(t@, key);
                    let nt = new->Table_0;
                    if !push && k + 1 == path.len() {
                        lemma_table_tree(nt);
                        if has_key(t@, key) {
                            lemma_key_index(t@, key);
                            lemma_entries_view_update(t@, key_index(t@, key), (key, x));
                        } else {
                            lemma_entries_view_push(t@, (key, x));
                        }
                    } else if has_key(t@, key) {
                        lemma_table_tree(nt);
                        lemma_key_index(t@, key);
                        let i = key_index(t@, key);
                        lemma_tree_apply(t@[i].1, nt@[i].1, path, k + 1, x, push);
                        lemma_entries_view_update(t@, i, (key, nt@[i].1));
                        assert(entries_view(t@)[i].1 == tree_of(t@[i].1));
                    }
                },
                _ => {},
            },
            Step::Index(j) => match old {
                Value::Array(a) => {
                    if 0 <= j < a@.len() {
                        let na = new->Array_0;
                        lemma_trees_of(a@);
                        lemma_trees_of(na@);
                        lemma_tree_apply(a@[j], na@[j], path, k + 1, x, push);
                        assert(trees_of(na@) =~= trees_of(a@).update(j, tree_of(na@[j])));
                    } else {
                        lemma_trees_of(a@);
                    }
                },
                _ => {},
            },
        }
    }
}


/// A statement of a document, as a mathematical object.
pub enum Stmt {
    /// A `[table]` header, with the keys of its dotted name.
    Table(Seq<Seq<char>>),
    /// An `[[array]]` header, with the keys of its dotted name.
    Array(Seq<Seq<char>>),
    /// A `key = value` pair.
    Pair(Seq<Seq<char>>, Tree),
}

/// The statement starting at `q`, and where it ends (before what may follow
/// on its line).
#[verifier::opaque]
pub open spec fn stmt_at(s: Seq<char>, q: int) -> Option<(Stmt, int)> {
    if q < 0 || q >= s.len() {
        None
    } else if s[q] == '[' {
        let arr = q + 1 < s.len() && s[q + 1] == '[';
        let k0 = if arr { q + 2 } else { q + 1 };
        match dotted_key(s, spaces_end(s, k0)) {
            Some((keys, ke)) => {
                let c = spaces_end(s, ke);
                if !(c < s.len() && s[c] == ']') {
                    None
                } else if !arr {
                    Some((Stmt::Table(keys), c + 1))
                } else if c + 1 < s.len() && s[c + 1] == ']' {
                    Some((Stmt::Array(keys), c + 2))
                } else {
                    None
                }
            },
            None => None,
        }
    } else {
        match dotted_key(s, q) {
            Some((keys, ke)) => {
                let a = spaces_end(s, ke);
                if !(a < s.len() && s[a] == '=') {
                    None
                } else {
                    match value_tree(s, spaces_end(s, a + 1)) {
                        Some((w, r)) => Some((Stmt::Pair(keys, w), r)),
                        None => None,
                    }
                }
            },
            None => None,
        }
    }
}

/// The statements of the document from `p` on, each on a line of its own,
/// with blank lines and comments around them; `None` where the text is not
/// shaped like that.
pub open spec fn doc_stmts(s: Seq<char>, p: int) -> Option<Seq<Stmt>>
    decreases s.len() - p,
{
    match trivia_end(s, p) {
        Some(q) => if !(0 <= p <= q) {
            None
        } else if q >= s.len() {
            Some(Seq::empty())
        } else {
            match stmt_at(s, q) {
                Some((st, e)) => match line_end(s, e) {
                    Some(n) => if !(q < e <= n && n <= s.len()) {
                        None
                    } else {
                        match doc_stmts(s, n) {
                            Some(rest) => Some(seq![st] + rest),
                            None => None,
                        }
                    },
                    None => None,
                },
                None => None,
            }
        },
        None => None,
    }
}

/// Where a document's statements start: past a byte order mark, if there
/// is one.
pub open spec fn doc_start(s: Seq<char>) -> int {
    if s.len() > 0 && s[0] == '\u{feff}' {
        1
    } else {
        0
    }
}

/// Whether every value a document's statements hold nests within the
/// reader's limit.
pub open spec fn stmts_fit(stmts: Seq<Stmt>) -> bool {
    forall|i: int| 0 <= i < stmts.len() ==> (#[trigger] stmts[i] matches Stmt::Pair(_, w) ==> nesting(w) <= MAX_DEPTH)
}

/// What the reader keeps while it builds a document: the document so far,
/// the table that pairs go into, the arrays that `[[array]]` headers
/// declared, the tables that headers created on their way deeper and that a
/// header of their own may still claim, and the tables that inline tables
/// sealed.
pub struct Built {
    pub root: Tree,
    pub current: Seq<Step>,
    pub arrays: Set<Seq<Step>>,
    pub implicit: Set<Seq<Step>>,
    pub frozen: Set<Seq<Step>>,
}

/// The document before any statement.
pub open spec fn built_start() -> Built {
    Built {
        root: Tree::Tab(Seq::empty()),
        current: Seq::empty(),
        arrays: Set::empty(),
        implicit: Set::empty(),
        frozen: Set::empty(),
    }
}

/// Walks the keys `keys[i..n]` of a header from `path`, creating the tables
/// that are not there yet and entering the last table of each declared
/// array of tables on the way: the document after, and the path walked.
pub open spec fn walk(root: Tree, path: Seq<Step>, keys: Seq<Seq<char>>, i: int, n: int, arrays: Set<Seq<Step>>) -> Option<
    (Tree, Seq<Step>),
>
    decreases n - i,
{
    if i >= n || i < 0 || n > keys.len() {
        Some((root, path))
    } else {
        let p = path.push(Step::Key(keys[i]));
        match tree_get(root, p, 0) {
            None => walk(tree_apply(root, p, 0, Tree::Tab(Seq::empty()), false), p, keys, i + 1, n, arrays),
            Some(Tree::Tab(_)) => walk(root, p, keys, i + 1, n, arrays),
            Some(Tree::Arr(items)) => if arrays.contains(p) && items.len() > 0 {
                walk(root, p.push(Step::Index(items.len() - 1)), keys, i + 1, n, arrays)
            } else {
                None
            },
            _ => None,
        }
    }
}

/// Whether no step of `p` that names a key leads to a sealed table.
pub open spec fn unfrozen(p: Seq<Step>, frozen: Set<Seq<Step>>) -> bool {
    forall|n: int| 0 < n <= p.len() && p[n - 1] is Key ==> !frozen.contains(#[trigger] p.take(n))
}

/// Whether `q[k..]`, followed from `w` by table keys alone, leads to a
/// table.
pub open spec fn tree_within(w: Tree, q: Seq<Step>, k: int) -> bool
    decreases q.len() - k,
{
    if k < 0 {
        false
    } else if k >= q.len() {
        w is Tab
    } else {
        match q[k] {
            Step::Key(key) => match w {
                Tree::Tab(es) => if tree_has(es, key) {
                    tree_within(es[tree_index(es, key)].1, q, k + 1)
                } else {
                    false
                },
                _ => false,
            },
            Step::Index(_) => false,
        }
    }
}

/// The tables within a value and within its tree are the same.
pub proof fn lemma_tree_within(v: Value, q: Seq<Step>, k: int)
    ensures
        table_within(v, q, k) == tree_within(tree_of(v), q, k),
    decreases q.len() - k,
{
    if 0 <= k < q.len() {
        match q[k] {
            Step::Key(key) => match v {
                Value::Table(t) => {
                    lemma_table_tree(t);
                    lemma_view_keys(t@, key);
                    if has_key(t@, key) {
                        lemma_key_index(t@, key);
                        let i = key_index(t@, key);
                        assert(entries_view(t@)[i].1 == tree_of(t@[i].1));
                        lemma_tree_within(t@[i].1, q, k + 1);
                    }
                },
                _ => {},
            },
            _ => {},
        }
    }
}

/// Walking a header's keys only lengthens the path.
pub proof fn lemma_walk_extends(root: Tree, path: Seq<Step>, keys: Seq<Seq<char>>, i: int, n: int, arrays: Set<Seq<Step>>)
    ensures
        walk(root, path, keys, i, n, arrays) matches Some((_, p2)) ==> path.is_prefix_of(p2),
    decreases n - i,
{
    if !(i >= n || i < 0 || n > keys.len()) {
        let p = path.push(Step::Key(keys[i]));
        match tree_get(root, p, 0) {
            None => {
                lemma_walk_extends(tree_apply(root, p, 0, Tree::Tab(Seq::empty()), false), p, keys, i + 1, n, arrays);
            },
            Some(Tree::Tab(_)) => {
                lemma_walk_extends(root, p, keys, i + 1, n, arrays);
            },
            Some(Tree::Arr(items)) => {
                if arrays.contains(p) && items.len() > 0 {
                    lemma_walk_extends(root, p.push(Step::Index(items.len() - 1)), keys, i + 1, n, arrays);
                }
            },
            _ => {},
        }
        if walk(root, path, keys, i, n, arrays) is Some {
            let p2 = walk(root, path, keys, i, n, arrays)->Some_0.1;
            let start = match tree_get(root, p, 0) {
                Some(Tree::Arr(items)) => p.push(Step::Index(items.len() - 1)),
                _ => p,
            };
            assert(start.is_prefix_of(p2));
            assert(path =~= p2.subrange(0, path.len() as int)) by {
                assert forall|j: int| 0 <= j < path.len() implies path[j] == p2[j] by {
                    assert(p[j] == path[j]);
                    assert(start[j] == path[j]);
                    assert(p2.subrange(0, start.len() as int)[j] == start[j]);
                }
            }
        }
    } else {
        assert(path =~= path.subrange(0, path.len() as int));
    }
}

/// Walking a header's keys passes through the path of its first key.
pub proof fn lemma_walk_first(root: Tree, path: Seq<Step>, keys: Seq<Seq<char>>, i: int, n: int, arrays: Set<Seq<Step>>)
    requires
        0 <= i < n <= keys.len(),
    ensures
        walk(root, path, keys, i, n, arrays) matches Some((_, p2)) ==> path.push(Step::Key(keys[i])).is_prefix_of(p2),
{
    let p = path.push(Step::Key(keys[i]));
    match tree_get(root, p, 0) {
        None => {
            lemma_walk_extends(tree_apply(root, p, 0, Tree::Tab(Seq::empty()), false), p, keys, i + 1, n, arrays);
        },
        Some(Tree::Tab(_)) => {
            lemma_walk_extends(root, p, keys, i + 1, n, arrays);
        },
        Some(Tree::Arr(items)) => {
            if arrays.contains(p) && items.len() > 0 {
                let q = p.push(Step::Index(items.len() - 1));
                lemma_walk_extends(root, q, keys, i + 1, n, arrays);
                if walk(root, path, keys, i, n, arrays) is Some {
                    let p2 = walk(root, path, keys, i, n, arrays)->Some_0.1;
                    assert(p =~= p2.subrange(0, p.len() as int)) by {
                        assert forall|j: int| 0 <= j < p.len() implies p[j] == p2[j] by {
                            assert(q[j] == p[j]);
                            assert(p2.subrange(0, q.len() as int)[j] == q[j]);
                        }
                    }
                }
            }
        },
        _ => {},
    }
}

/// A path whose key steps lead to no sealed table leads to none along a
/// shorter start either.
pub proof fn lemma_unfrozen_prefix(p: Seq<Step>, q: Seq<Step>, frozen: Set<Seq<Step>>)
    requires
        unfrozen(q, frozen),
        p.is_prefix_of(q),
    ensures
        unfrozen(p, frozen),
{
    assert forall|n: int| 0 < n <= p.len() && p[n - 1] is Key implies !frozen.contains(#[trigger] p.take(n)) by {
        assert(q[n - 1] == p[n - 1]) by {
            assert(q.subrange(0, p.len() as int)[n - 1] == q[n - 1]);
        }
        assert(p.take(n) =~= q.take(n)) by {
            assert forall|j: int| 0 <= j < n implies p.take(n)[j] == q.take(n)[j] by {
                assert(q.subrange(0, p.len() as int)[j] == q[j]);
            }
        }
    }
}

/// The tables that walking the keys `keys[i..n]` of a header from `path`
/// creates on its way.
pub open spec fn walk_created(root: Tree, path: Seq<Step>, keys: Seq<Seq<char>>, i: int, n: int, arrays: Set<Seq<Step>>) -> Set<
    Seq<Step>,
>
    decreases n - i,
{
    if i >= n || i < 0 || n > keys.len() {
        Set::empty()
    } else {
        let p = path.push(Step::Key(keys[i]));
        match tree_get(root, p, 0) {
            None => walk_created(tree_apply(root, p, 0, Tree::Tab(Seq::empty()), false), p, keys, i + 1, n, arrays).insert(p),
            Some(Tree::Tab(_)) => walk_created(root, p, keys, i + 1, n, arrays),
            Some(Tree::Arr(items)) => if arrays.contains(p) && items.len() > 0 {
                walk_created(root, p.push(Step::Index(items.len() - 1)), keys, i + 1, n, arrays)
            } else {
                Set::empty()
            },
            _ => Set::empty(),
        }
    }
}

/// What a header does to the document: a `[table]` header creates a new
/// table and enters it; an `[[array]]` header appends a new table to its
/// array, creating the array if needed, and enters that. A `[table]`
/// header may also claim a table that an earlier header created on its way
/// deeper, once. `None` where the header is refused.
pub open spec fn header_step(b: Built, keys: Seq<Seq<char>>, is_array: bool) -> Option<Built> {
    if keys.len() == 0 {
        None
    } else {
        match walk(b.root, Seq::empty(), keys, 0, keys.len() - 1, b.arrays) {
            Some((r1, pb)) => {
                let pk = pb.push(Step::Key(keys.last()));
                let imp = b.implicit.union(walk_created(b.root, Seq::empty(), keys, 0, keys.len() - 1, b.arrays));
                if !unfrozen(pk, b.frozen) {
                    None
                } else {
                match tree_get(r1, pk, 0) {
                    None => if is_array {
                        Some(
                            Built {
                                root: tree_apply(r1, pk, 0, Tree::Arr(seq![Tree::Tab(Seq::empty())]), false),
                                current: pk.push(Step::Index(0)),
                                arrays: b.arrays.insert(pk),
                                implicit: imp,
                                frozen: b.frozen,
                            },
                        )
                    } else {
                        Some(
                            Built {
                                root: tree_apply(r1, pk, 0, Tree::Tab(Seq::empty()), false),
                                current: pk,
                                arrays: b.arrays,
                                implicit: imp,
                                frozen: b.frozen,
                            },
                        )
                    },
                    Some(Tree::Tab(_)) => if !is_array && imp.contains(pk) {
                        Some(Built { root: r1, current: pk, arrays: b.arrays, implicit: imp.remove(pk), frozen: b.frozen })
                    } else {
                        None
                    },
                    Some(Tree::Arr(items)) => if is_array && b.arrays.contains(pk) {
                        Some(
                            Built {
                                root: tree_apply(r1, pk, 0, Tree::Tab(Seq::empty()), true),
                                current: pk.push(Step::Index(items.len() as int)),
                                arrays: b.arrays,
                                implicit: imp,
                                frozen: b.frozen,
                            },
                        )
                    } else {
                        None
                    },
                    _ => None,
                }
                }
            },
            None => None,
        }
    }
}

/// What a pair with a single key does to the document: stores its value
/// under a key the current table does not have yet, and seals the tables of
/// an inline table. `None` where the pair is refused, and for dotted keys,
/// which this description leaves out.
pub open spec fn pair_step(b: Built, keys: Seq<Seq<char>>, w: Tree) -> Option<Built> {
    if keys.len() != 1 {
        None
    } else {
        let p = b.current.push(Step::Key(keys[0]));
        match tree_get(b.root, b.current, 0) {
            Some(Tree::Tab(_)) => match tree_get(b.root, p, 0) {
                None => Some(
                    Built {
                        root: tree_apply(b.root, p, 0, w, false),
                        current: b.current,
                        arrays: b.arrays,
                        implicit: b.implicit,
                        frozen: b.frozen.union(Set::new(|q: Seq<Step>| p.is_prefix_of(q) && tree_within(w, q, p.len() as int))),
                    },
                ),
                _ => None,
            },
            _ => None,
        }
    }
}

/// What a statement does to the document.
#[verifier::opaque]
pub open spec fn step(b: Built, st: Stmt) -> Option<Built> {
    match st {
        Stmt::Table(keys) => header_step(b, keys, false),
        Stmt::Array(keys) => header_step(b, keys, true),
        Stmt::Pair(keys, w) => pair_step(b, keys, w),
    }
}

/// What statements do to the document, one after another.
pub open spec fn run(b: Built, stmts: Seq<Stmt>) -> Option<Built>
    decreases stmts.len(),
{
    if stmts.len() == 0 {
        Some(b)
    } else {
        match step(b, stmts[0]) {
            Some(b2) => run(b2, stmts.drop_first()),
            None => None,
        }
    }
}


/// The paths a list of paths holds, as a set.
pub(crate) open spec fn path_set(v: Seq<Vec<Seg>>) -> Set<Seq<Step>> {
    Set::new(|q: Seq<Step>| holds_path(v, q))
}

/// A document as a tree.
pub open spec fn doc_tree(root: Table) -> Tree {
    tree_of(Value::Table(root))
}

/// An empty table as a tree.
pub proof fn lemma_empty_table_tree(t: Table)
    requires
        t@.len() == 0,
    ensures
        tree_of(Value::Table(t)) == Tree::Tab(Seq::empty()),
{
    lemma_table_tree(t);
    assert(entries_view(t@) =~= Seq::<(Seq<char>, Tree)>::empty());
}

/// A header's walk, where its next key names nothing: an empty table is
/// created there.
pub(crate) proof fn lemma_walk_missing(
    before: Table,
    after: Table,
    nt: Table,
    pb: Seq<Step>,
    keys: Seq<Seq<char>>,
    i: int,
    n: int,
    arrays: Set<Seq<Step>>,
)
    requires
        0 <= i < n <= keys.len(),
        path_value(before, pb.push(Step::Key(keys[i]))) is None,
        nt@.len() == 0,
        applied(Value::Table(before), Value::Table(after), pb.push(Step::Key(keys[i])), 0, Value::Table(nt), false),
    ensures
        walk(doc_tree(before), pb, keys, i, n, arrays) == walk(doc_tree(after), pb.push(Step::Key(keys[i])), keys, i + 1, n, arrays),
        walk_created(doc_tree(before), pb, keys, i, n, arrays) == walk_created(
            doc_tree(after),
            pb.push(Step::Key(keys[i])),
            keys,
            i + 1,
            n,
            arrays,
        ).insert(pb.push(Step::Key(keys[i]))),
{
    let pk = pb.push(Step::Key(keys[i]));
    lemma_tree_path(before, pk);
    lemma_tree_apply(Value::Table(before), Value::Table(after), pk, 0, Value::Table(nt), false);
    lemma_empty_table_tree(nt);
}

/// A header's walk, where its next key names a table: the walk goes on
/// into it.
pub proof fn lemma_walk_table(root: Table, pb: Seq<Step>, keys: Seq<Seq<char>>, i: int, n: int, arrays: Set<Seq<Step>>)
    requires
        0 <= i < n <= keys.len(),
        path_value(root, pb.push(Step::Key(keys[i]))) matches Some(Value::Table(_)),
    ensures
        walk(doc_tree(root), pb, keys, i, n, arrays) == walk(doc_tree(root), pb.push(Step::Key(keys[i])), keys, i + 1, n, arrays),
        walk_created(doc_tree(root), pb, keys, i, n, arrays) == walk_created(
            doc_tree(root),
            pb.push(Step::Key(keys[i])),
            keys,
            i + 1,
            n,
            arrays,
        ),
{
    let pk = pb.push(Step::Key(keys[i]));
    lemma_tree_path(root, pk);
}

/// A header's walk, where its next key names a declared array of tables
/// that has tables: the walk goes on into the last of them.
pub proof fn lemma_walk_array(root: Table, pb: Seq<Step>, keys: Seq<Seq<char>>, i: int, n: int, arrays: Set<Seq<Step>>, len: int)
    requires
        0 <= i < n <= keys.len(),
        path_value(root, pb.push(Step::Key(keys[i]))) matches Some(Value::Array(a)),
        path_value(root, pb.push(Step::Key(keys[i]))) matches Some(Value::Array(a)) ==> a@.len() == len,
        len > 0,
        arrays.contains(pb.push(Step::Key(keys[i]))),
    ensures
        walk(doc_tree(root), pb, keys, i, n, arrays) == walk(
            doc_tree(root),
            pb.push(Step::Key(keys[i])).push(Step::Index(len - 1)),
            keys,
            i + 1,
            n,
            arrays,
        ),
        walk_created(doc_tree(root), pb, keys, i, n, arrays) == walk_created(
            doc_tree(root),
            pb.push(Step::Key(keys[i])).push(Step::Index(len - 1)),
            keys,
            i + 1,
            n,
            arrays,
        ),
{
    let pk = pb.push(Step::Key(keys[i]));
    lemma_tree_path(root, pk);
    let a = path_value(root, pk)->Some_0->Array_0;
    lemma_trees_of(a@);
}

/// A header's walk, where its next key names a value it cannot pass
/// through: the header is refused.
pub proof fn lemma_walk_refused(root: Table, pb: Seq<Step>, keys: Seq<Seq<char>>, i: int, n: int, arrays: Set<Seq<Step>>)
    requires
        0 <= i < n <= keys.len(),
        path_value(root, pb.push(Step::Key(keys[i]))) is Some,
        !(path_value(root, pb.push(Step::Key(keys[i]))) matches Some(Value::Table(_))),
        path_value(root, pb.push(Step::Key(keys[i]))) matches Some(Value::Array(a)) ==> !(arrays.contains(
            pb.push(Step::Key(keys[i])),
        ) && a@.len() > 0),
    ensures
        walk(doc_tree(root), pb, keys, i, n, arrays) is None,
{
    let pk = pb.push(Step::Key(keys[i]));
    lemma_tree_path(root, pk);
    match path_value(root, pk) {
        Some(Value::Array(a)) => {
            lemma_trees_of(a@);
        },
        _ => {},
    }
}


/// A new empty table stored at `pk`, as trees.
pub(crate) proof fn lemma_create_table_tree(before: Table, after: Table, pk: Seq<Step>, nt: Table)
    requires
        nt@.len() == 0,
        applied(Value::Table(before), Value::Table(after), pk, 0, Value::Table(nt), false),
    ensures
        doc_tree(after) == tree_apply(doc_tree(before), pk, 0, Tree::Tab(Seq::empty()), false),
{
    lemma_tree_apply(Value::Table(before), Value::Table(after), pk, 0, Value::Table(nt), false);
    lemma_empty_table_tree(nt);
}

/// A new array holding one empty table stored at `pk`, as trees.
pub(crate) proof fn lemma_create_array_tree(before: Table, after: Table, pk: Seq<Step>, nt: Table, nv: Value)
    requires
        nt@.len() == 0,
        nv is Array,
        nv->Array_0@ == seq![Value::Table(nt)],
        applied(Value::Table(before), Value::Table(after), pk, 0, nv, false),
    ensures
        doc_tree(after) == tree_apply(doc_tree(before), pk, 0, Tree::Arr(seq![Tree::Tab(Seq::empty())]), false),
{
    lemma_tree_apply(Value::Table(before), Value::Table(after), pk, 0, nv, false);
    lemma_empty_table_tree(nt);
    lemma_trees_of(nv->Array_0@);
    assert(trees_of(nv->Array_0@) =~= seq![Tree::Tab(Seq::empty())]);
}

/// A new empty table appended to the array at `pk`, as trees.
pub(crate) proof fn lemma_push_table_tree(before: Table, after: Table, pk: Seq<Step>, nt: Table)
    requires
        nt@.len() == 0,
        applied(Value::Table(before), Value::Table(after), pk, 0, Value::Table(nt), true),
    ensures
        doc_tree(after) == tree_apply(doc_tree(before), pk, 0, Tree::Tab(Seq::empty()), true),
{
    lemma_tree_apply(Value::Table(before), Value::Table(after), pk, 0, Value::Table(nt), true);
    lemma_empty_table_tree(nt);
}

/// A path added to a list of paths, as sets.
pub(crate) proof fn lemma_path_set_insert(old: Seq<Vec<Seg>>, new: Seq<Vec<Seg>>, p: Seq<Step>)
    requires
        forall|q: Seq<Step>| #[trigger] holds_path(new, q) == (holds_path(old, q) || q == p),
    ensures
        path_set(new) == path_set(old).insert(p),
{
    assert(path_set(new) =~= path_set(old).insert(p));
}

/// An array in a document, as a tree: as many items as it has.
pub(crate) proof fn lemma_array_tree(root: Table, pk: Seq<Step>)
    requires
        pk.len() > 0,
        path_value(root, pk) is Some,
        path_value(root, pk)->Some_0 is Array,
    ensures
        tree_get(doc_tree(root), pk, 0) matches Some(Tree::Arr(items)) && items.len() == path_value(
            root,
            pk,
        )->Some_0->Array_0@.len(),
{
    lemma_tree_path(root, pk);
    lemma_trees_of(path_value(root, pk)->Some_0->Array_0@);
}


/// What a document being built is, as the reader's mathematical state.
pub(crate) open spec fn built_of(doc: Document) -> Built {
    Built {
        root: doc_tree(doc.root),
        current: path_of(doc.current@),
        arrays: path_set(doc.arrays@),
        implicit: path_set(doc.implicit@),
        frozen: path_set(doc.frozen@),
    }
}


/// The path of a single key below the current table.
pub(crate) proof fn lemma_full_path_one(current: Seq<Seg>, keys: Seq<String>)
    requires
        keys.len() == 1,
    ensures
        full_path(current, keys) == path_of(current).push(Step::Key(key_views(keys)[0])),
        key_views(keys).len() == 1,
{
    assert(full_path(current, keys) =~= path_of(current).push(Step::Key(key_views(keys)[0])));
}

/// What a pair does to a document, as the reader's state: exactly what
/// storing its value there does.
pub(crate) proof fn lemma_pair_step(before: Document, after: Document, keys: Seq<String>, x: Value)
    requires
        keys.len() == 1,
        applied(Value::Table(before.root), Value::Table(after.root), full_path(before.current@, keys), 0, x, false),
        after.current == before.current,
        after.arrays == before.arrays,
        forall|q: Seq<Step>| #[trigger] holds_path(after.implicit@, q) == holds_path(before.implicit@, q),
        forall|q: Seq<Step>| #[trigger] holds_path(after.frozen@, q) == (holds_path(before.frozen@, q) || (full_path(
            before.current@,
            keys,
        ).is_prefix_of(q) && table_within(x, q, full_path(before.current@, keys).len() as int))),
        pair_step(built_of(before), key_views(keys), tree_of(x)) is Some,
    ensures
        pair_step(built_of(before), key_views(keys), tree_of(x)) == Some(built_of(after)),
{
    lemma_full_path_one(before.current@, keys);
    lemma_tree_apply(Value::Table(before.root), Value::Table(after.root), full_path(before.current@, keys), 0, x, false);
    assert(path_set(after.implicit@) =~= path_set(before.implicit@));
    let p = full_path(before.current@, keys);
    assert forall|q: Seq<Step>| #[trigger] path_set(after.frozen@).contains(q) == path_set(before.frozen@).union(
        Set::new(|q: Seq<Step>| p.is_prefix_of(q) && tree_within(tree_of(x), q, p.len() as int)),
    ).contains(q) by {
        lemma_tree_within(x, q, p.len() as int);
    }
    assert(path_set(after.frozen@) =~= path_set(before.frozen@).union(
        Set::new(|q: Seq<Step>| p.is_prefix_of(q) && tree_within(tree_of(x), q, p.len() as int)),
    ));
}


/// From `p` on, the document's statements take the reader from `b` to
/// `fin`, each value nesting within the reader's limit.
#[verifier::opaque]
pub open spec fn rests(s: Seq<char>, p: int, b: Built, fin: Built) -> bool {
    &&& doc_stmts(s, p) is Some
    &&& stmts_fit(doc_stmts(s, p)->Some_0)
    &&& run(b, doc_stmts(s, p)->Some_0) == Some(fin)
}

/// The whole document takes the reader to `fin` exactly when its statements
/// do.
pub proof fn lemma_rests_start(s: Seq<char>, p: int, b: Built)
    ensures
        (doc_stmts(s, p) matches Some(stmts) && stmts_fit(stmts) && run(b, stmts) is Some) ==> rests(
            s,
            p,
            b,
            run(b, doc_stmts(s, p)->Some_0)->Some_0,
        ),
{
    reveal(rests);
}

/// The next statement of a document, at `q` past the trivia from `p`:
/// where it ends, where its line ends, and what it does.
pub proof fn lemma_doc_step(s: Seq<char>, p: int, q: int, b: Built, fin: Built)
    requires
        rests(s, p, b, fin),
        trivia_end(s, p) == Some(q),
        q < s.len(),
    ensures
        ({
            &&& stmt_at(s, q) matches Some((st, e))
            &&& line_end(s, e) matches Some(n)
            &&& q < e <= n <= s.len()
            &&& step(b, st) matches Some(b2)
            &&& rests(s, n, b2, fin)
            &&& st matches Stmt::Pair(_, w) ==> nesting(w) <= MAX_DEPTH
            &&& s[q] == '[' <==> !(st is Pair)
        }),
{
    reveal(rests);
    reveal(stmt_at);
    let rest = doc_stmts(s, p)->Some_0;
    let (st, e) = stmt_at(s, q)->Some_0;
    let n = line_end(s, e)->Some_0;
    let tail = doc_stmts(s, n)->Some_0;
    assert(rest == seq![st] + tail);
    assert(rest[0] == st);
    assert(rest.drop_first() =~= tail);
    assert forall|i: int| 0 <= i < tail.len() implies (#[trigger] tail[i] matches Stmt::Pair(_, w) ==> nesting(w) <= MAX_DEPTH) by {
        assert(tail[i] == rest[i + 1]);
    }
}

/// Trivia can be read wherever the rest of a document can.
pub proof fn lemma_rests_trivia(s: Seq<char>, p: int, b: Built, fin: Built)
    requires
        rests(s, p, b, fin),
    ensures
        trivia_end(s, p) is Some,
{
    reveal(rests);
}

/// A document's last trivia: nothing more is done.
pub proof fn lemma_doc_end(s: Seq<char>, p: int, q: int, b: Built, fin: Built)
    requires
        rests(s, p, b, fin),
        trivia_end(s, p) == Some(q),
        q >= s.len(),
    ensures
        fin == b,
{
    reveal(rests);
}


/// Whether a document, read from the start, defines something twice: its
/// statements, each value nesting within the reader's limit, come to a pair
/// whose key the table it goes into already holds, or to a header for what
/// is already there and may not be defined again, before anything else
/// refuses them.
pub open spec fn defines_twice(s: Seq<char>) -> bool {
    doc_stmts(s, doc_start(s)) matches Some(stmts) && stmts_fit(stmts) && run_redefines(built_start(), stmts)
}

/// Whether a header names what the document already holds, past tables
/// it may walk through and off any inline table, and is refused for it: a
/// table defined twice, or a table and an array of tables under one name.
pub open spec fn header_redefines(b: Built, keys: Seq<Seq<char>>, is_array: bool) -> bool {
    &&& keys.len() > 0
    &&& walk(b.root, Seq::empty(), keys, 0, keys.len() - 1, b.arrays) matches Some((r1, pb))
    &&& unfrozen(pb.push(Step::Key(keys.last())), b.frozen)
    &&& tree_get(r1, pb.push(Step::Key(keys.last())), 0) is Some
    &&& header_step(b, keys, is_array) is None
}

/// Whether a statement defines again what the document already holds: a
/// pair whose single key the current table has, or a header as above.
pub open spec fn redefines(b: Built, st: Stmt) -> bool {
    match st {
        Stmt::Pair(keys, _) => keys.len() == 1 && tree_get(b.root, b.current.push(Step::Key(keys[0])), 0) is Some,
        Stmt::Table(keys) => header_redefines(b, keys, false),
        Stmt::Array(keys) => header_redefines(b, keys, true),
    }
}

/// Whether, applied from `b`, the statements come to one that defines
/// again what the document holds, before anything else refuses them.
pub open spec fn run_redefines(b: Built, stmts: Seq<Stmt>) -> bool
    decreases stmts.len(),
{
    if stmts.len() == 0 {
        false
    } else if redefines(b, stmts[0]) {
        true
    } else {
        match step(b, stmts[0]) {
            Some(b2) => run_redefines(b2, stmts.drop_first()),
            None => false,
        }
    }
}

/// From `p` on, the document's statements, each value nesting within the
/// reader's limit, come from `b` to one that defines something again.
#[verifier::opaque]
pub open spec fn refuses(s: Seq<char>, p: int, b: Built) -> bool {
    &&& doc_stmts(s, p) is Some
    &&& stmts_fit(doc_stmts(s, p)->Some_0)
    &&& run_redefines(b, doc_stmts(s, p)->Some_0)
}

/// The whole document comes to a statement that defines something again
/// exactly when its statements do.
pub proof fn lemma_refuses_start(s: Seq<char>, p: int, b: Built)
    ensures
        (doc_stmts(s, p) matches Some(stmts) && stmts_fit(stmts) && run_redefines(b, stmts)) ==> refuses(s, p, b),
{
    reveal(refuses);
}

/// Trivia can be read wherever the rest of such a document can, and the
/// document does not end there.
pub proof fn lemma_refuses_trivia(s: Seq<char>, p: int, b: Built)
    requires
        refuses(s, p, b),
    ensures
        trivia_end(s, p) matches Some(q) && q < s.len(),
{
    reveal(refuses);
}

/// The next statement of such a document: either it defines something
/// again, or it is taken and the rest still comes to one that does.
pub proof fn lemma_refuses_step(s: Seq<char>, p: int, q: int, b: Built)
    requires
        refuses(s, p, b),
        trivia_end(s, p) == Some(q),
        q < s.len(),
    ensures
        ({
            &&& stmt_at(s, q) matches Some((st, e))
            &&& line_end(s, e) matches Some(n)
            &&& q < e <= n <= s.len()
            &&& st matches Stmt::Pair(_, w) ==> nesting(w) <= MAX_DEPTH
            &&& s[q] == '[' <==> !(st is Pair)
            &&& redefines(b, st) || (step(b, st) matches Some(b2) && refuses(s, n, b2))
        }),
{
    reveal(refuses);
    reveal(stmt_at);
    let rest = doc_stmts(s, p)->Some_0;
    let (st, e) = stmt_at(s, q)->Some_0;
    let n = line_end(s, e)->Some_0;
    let tail = doc_stmts(s, n)->Some_0;
    assert(rest == seq![st] + tail);
    assert(rest[0] == st);
    assert(rest.drop_first() =~= tail);
    assert forall|i: int| 0 <= i < tail.len() implies (#[trigger] tail[i] matches Stmt::Pair(_, w) ==> nesting(w) <= MAX_DEPTH) by {
        assert(tail[i] == rest[i + 1]);
    }
}

/// The table a document builds, as a tree, where this description covers
/// it: the document's statements, each value nesting within the reader's
/// limit, applied from an empty document. `None` where the document is
/// refused, and where it uses what the description leaves out: a key made
/// of more than one part on the left of `=`.
pub open spec fn document_tree(s: Seq<char>) -> Option<Tree> {
    match doc_stmts(s, doc_start(s)) {
        Some(stmts) => if stmts_fit(stmts) {
            match run(built_start(), stmts) {
                Some(b) => Some(b.root),
                None => None,
            }
        } else {
            None
        },
        None => None,
    }
}

} // verus!
