//! The value model: tables, values and their conversions.

use tomlproc::ser::{key_to_string, write_string};
use tomlproc::{Entry, Table, Value};

#[test]
fn keeps_insertion_order() {
    let mut table = Table::new();
    table.insert("z", 1);
    table.insert("a", 2);
    table.insert("m", 3);
    assert_eq!(table.keys(), ["z", "a", "m"]);

    // Overwriting keeps the original position.
    table.insert("z", 9);
    assert_eq!(table.keys(), ["z", "a", "m"]);
    assert_eq!(table["z"], Value::Integer(9));
    assert_eq!(table.len(), 3);
}

#[test]
fn remove_keeps_the_index_consistent() {
    let mut table = Table::from_pairs(vec![("a", 1), ("b", 2), ("c", 3)]);
    assert_eq!(table.remove("b"), Some(Value::Integer(2)));
    assert_eq!(table.remove("b"), None);
    assert_eq!(table.get("c"), Some(&Value::Integer(3)));
    assert_eq!(table.keys(), ["a", "c"]);

    table.insert("d", 4);
    assert_eq!(table.get("d"), Some(&Value::Integer(4)));
    assert_eq!(table.get("a"), Some(&Value::Integer(1)));
}

#[test]
fn equality_ignores_order() {
    let a = Table::from_pairs(vec![("x", 1), ("y", 2)]);
    let b = Table::from_pairs(vec![("y", 2), ("x", 1)]);
    assert_eq!(a, b);

    let c = Table::from_pairs(vec![("y", 2)]);
    assert_ne!(a, c);
}

#[test]
fn map_get_path_walks_tables_and_arrays() {
    let mut table = Table::new();
    table.insert("a", Value::Array(vec![Value::from([1, 2])]));
    table.insert("b.c", 3);

    assert_eq!(table.get_path("a.0.1"), Some(&Value::Integer(2)));
    assert_eq!(table.get_path("a.0.2"), None);
    assert_eq!(table.get_path("a.x"), None);
    assert_eq!(table.get_path("nope"), None);
    assert_eq!(table.get_path("b.c"), None);
    assert_eq!(table.get("b.c"), Some(&Value::Integer(3)));
}

#[test]
fn keys_are_quoted_only_when_needed() {
    assert_eq!(key_to_string("plain-key_1"), "plain-key_1");
    assert_eq!(key_to_string(""), "\"\"");
    assert_eq!(key_to_string("with space"), "\"with space\"");
    assert_eq!(key_to_string("a.b"), "\"a.b\"");
    assert_eq!(key_to_string("clé"), "\"clé\"");
}

#[test]
fn strings_escape_control_characters() {
    let mut out = String::new();
    write_string(&mut out, "a\tb\nc\u{1}\u{7f}\"\\");
    assert_eq!(out, "\"a\\tb\\nc\\u0001\\u007F\\\"\\\\\"");
}

#[test]
fn accessors_are_type_strict() {
    let value = Value::Integer(7);
    assert_eq!(value.as_integer(), Some(7));
    assert!(value.as_float().is_none());
    assert_eq!(value.kind_name(), "integer");
}

#[test]
fn conversions() {
    assert_eq!(Value::from(1u8), Value::Integer(1));
    assert_eq!(Value::from("hi"), Value::String("hi".into()));
    assert_eq!(
        Value::from(vec![1, 2]),
        Value::Array(vec![Value::Integer(1), Value::Integer(2)])
    );
    assert_eq!(Value::from([true, false])[1], Value::Boolean(false));
}

#[test]
fn value_get_path_walks_tables_and_arrays() {
    let mut inner = Table::new();
    inner.insert("ports", vec![80, 443]);
    let mut root = Table::new();
    root.insert("server", Value::Array(vec![Value::Table(inner)]));
    let value = Value::Table(root);

    assert_eq!(
        value.get_path("server.0.ports.0"),
        Some(&Value::Integer(80))
    );
    assert_eq!(value.get_path("server.0.ports.2"), None);
    assert_eq!(value.get_path("server.x"), None);
    assert_eq!(value.get_path("nope"), None);
}

#[test]
fn an_index_segment_reads_like_a_usize() {
    let value = Value::from(vec![10, 11, 12]);
    assert_eq!(value.get_path("+1"), Some(&Value::Integer(11)));
    assert_eq!(value.get_path("02"), Some(&Value::Integer(12)));
    assert_eq!(value.get_path("-1"), None);
    assert_eq!(value.get_path("99999999999999999999999"), None);
    assert_eq!(value.get_path(""), None);
}

#[test]
fn an_inserted_value_is_what_get_returns() {
    let mut table = Table::new();
    assert_eq!(table.insert("k", "v"), None);
    assert_eq!(table.get("k"), Some(&Value::from("v")));
    assert_eq!(table.insert("k", 2), Some(Value::from("v")));
    assert_eq!(table.get("k"), Some(&Value::Integer(2)));
    assert_eq!(table.remove("k"), Some(Value::Integer(2)));
    assert_eq!(table.get("k"), None);
    assert!(table.is_empty());
}

#[test]
fn retain_keeps_order_and_reindexes() {
    let mut table = Table::from_pairs(vec![("a", 1), ("b", 2), ("c", 3)]);
    table.retain(|_, value| value.as_integer() != Some(2));
    assert_eq!(table.keys(), ["a", "c"]);
    assert_eq!(table.get("c"), Some(&Value::Integer(3)));
    assert_eq!(table.get("b"), None);
}

#[test]
fn sort_keys_reindexes() {
    let mut table = Table::from_pairs(vec![("c", 3), ("a", 1), ("b", 2)]);
    table.sort_keys();
    assert_eq!(table.keys(), ["a", "b", "c"]);
    assert_eq!(table.get("c"), Some(&Value::Integer(3)));
}

#[test]
fn sorting_puts_a_prefix_first_and_orders_by_code_point() {
    let mut table = Table::from_pairs(vec![("ab", 1), ("B", 2), ("a", 3), ("é", 4), ("", 5)]);
    table.sort_keys();
    assert_eq!(table.keys(), ["", "B", "a", "ab", "é"]);
    assert_eq!(table.get("ab"), Some(&Value::Integer(1)));
}

#[test]
fn retain_can_drop_everything_or_nothing() {
    let mut table = Table::from_pairs(vec![("x", 1), ("y", 2)]);
    table.retain(|_, _| true);
    assert_eq!(table.keys(), ["x", "y"]);
    table.retain(|key, _| key != "x");
    assert_eq!(table.keys(), ["y"]);
    table.retain(|_, _| false);
    assert!(table.is_empty());
}

#[test]
fn entry_api() {
    let mut table = Table::new();
    assert_eq!(table.entry("a").key(), "a");
    table.entry("a").or_insert(1);
    table.entry("a").or_insert(2);
    assert_eq!(table["a"], Value::Integer(1));

    table.entry("a").and_modify(|v| *v = Value::Integer(3));
    assert_eq!(table["a"], Value::Integer(3));

    match table.entry("b") {
        Entry::Vacant(entry) => assert_eq!(entry.into_key(), "b"),
        Entry::Occupied(_) => panic!("`b` should be vacant"),
    }

    table.insert("b", 2);
    match table.entry("a") {
        Entry::Occupied(entry) => assert_eq!(entry.remove(), Value::Integer(3)),
        Entry::Vacant(_) => panic!("`a` should be occupied"),
    }
    // The index survives the removal.
    assert_eq!(table.get("b"), Some(&Value::Integer(2)));
    assert_eq!(table.len(), 1);
}

#[test]
fn entries_hand_out_their_value_mutably() {
    let mut table = Table::from_pairs(vec![("hits", 1)]);
    table.entry("misses").or_insert_with(|| Value::Integer(0));
    assert_eq!(table["misses"], Value::Integer(0));
    if let Entry::Occupied(mut entry) = table.entry("hits") {
        assert_eq!(entry.key(), "hits");
        assert_eq!(entry.get(), &Value::Integer(1));
        *entry.get_mut() = Value::Integer(5);
        assert_eq!(entry.insert(6), Value::Integer(5));
    } else {
        panic!("`hits` should be occupied");
    }
    assert_eq!(table.keys(), ["hits", "misses"]);
    assert_eq!(table["hits"], Value::Integer(6));

    if let Some(v) = table.get_mut("misses") {
        *v = Value::Integer(9);
    }
    assert_eq!(table.get_mut("nope"), None);
    assert_eq!(table["misses"], Value::Integer(9));
}

#[test]
fn a_value_hands_out_its_parts_mutably() {
    let mut value = Value::Table(Table::from_pairs(vec![("a", 1)]));
    *value.get_mut("a").unwrap() = Value::Integer(2);
    assert_eq!(value.get("a"), Some(&Value::Integer(2)));
    assert_eq!(value.get_mut("b"), None);
    value.as_table_mut().unwrap().insert("b", vec![1, 2]);
    value.get_mut("b").unwrap().as_array_mut().unwrap().push(Value::Integer(3));
    assert_eq!(value.get("b"), Some(&Value::from(vec![1, 2, 3])));
    assert!(Value::Integer(1).as_array_mut().is_none());
    assert!(Value::Integer(1).as_table_mut().is_none());
    assert_eq!(Value::Integer(1).get_mut("a"), None);
}

#[test]
fn every_value_can_be_changed_in_place_in_order() {
    let mut t = Table::new();
    t.insert("a", 1);
    t.insert("b", 2);
    let mut i = 0;
    while i < t.len() {
        let v = t.value_mut_at(i);
        if let Value::Integer(n) = v {
            *n *= 10;
        }
        i += 1;
    }
    assert_eq!(t.get("a").and_then(|v| v.as_integer()), Some(10));
    assert_eq!(t.get("b").and_then(|v| v.as_integer()), Some(20));
    assert_eq!(t.keys(), vec!["a", "b"]);
}
