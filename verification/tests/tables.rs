use distributed_kv::table::Table;

fn s(text: &str) -> String {
    text.to_string()
}

#[test]
fn insert_get_remove() {
    let mut table: Table<String> = Table::new();
    assert_eq!(table.len(), 0);
    assert_eq!(table.get(&s("a")), None);
    assert!(!table.remove(&s("a")));
    table.insert(s("a"), s("1"));
    table.insert(s("b"), s("2"));
    table.insert(s("a"), s("3"));
    assert_eq!(table.len(), 2);
    assert_eq!(table.get(&s("a")), Some(&s("3")));
    assert_eq!(table.get(&s("b")), Some(&s("2")));
    assert!(table.contains_key(&s("b")));
    assert!(!table.contains_key(&s("c")));
    assert!(table.remove(&s("a")));
    assert_eq!(table.len(), 1);
    assert_eq!(table.get(&s("a")), None);
    assert_eq!(table.binding_at(0), Some((&s("b"), &s("2"))));
    assert_eq!(table.binding_at(1), None);
}

#[test]
fn clone_is_independent() {
    let mut table: Table<String> = Table::new();
    table.insert(s("k"), s("v"));
    let copy = table.clone();
    table.insert(s("k"), s("w"));
    table.insert(s("l"), s("x"));
    assert_eq!(copy.len(), 1);
    assert_eq!(copy.get(&s("k")), Some(&s("v")));
    assert_eq!(table.get(&s("k")), Some(&s("w")));
}

#[test]
fn keys_are_compared_whole() {
    let mut table: Table<String> = Table::new();
    table.insert(s(""), s("empty"));
    table.insert(s("a"), s("1"));
    table.insert(s("ab"), s("2"));
    assert_eq!(table.len(), 3);
    assert_eq!(table.get(&s("")), Some(&s("empty")));
    assert_eq!(table.get(&s("a")), Some(&s("1")));
    assert_eq!(table.get(&s("ab")), Some(&s("2")));
    assert_eq!(table.get(&s("abc")), None);
}
