use rchat::table::Table;

#[test]
fn table_insert_get_and_replace_in_place() {
    let mut t: Table<u64> = Table::new();
    assert!(t.is_empty());
    t.insert("a", 1);
    t.insert("b", 2);
    t.insert("a", 3);
    assert_eq!(t.len(), 2);
    assert_eq!(t.get("a"), Some(&3));
    assert_eq!(t.get("b"), Some(&2));
    assert_eq!(t.get("c"), None);
    assert_eq!(t.keys(), vec!["a".to_string(), "b".to_string()]);
    assert_eq!(t.find("b"), Some(1));
    assert!(t.contains_key("a"));
    assert!(!t.contains_key("z"));
}

#[test]
fn table_remove_keeps_order_of_others() {
    let mut t: Table<u64> = Table::new();
    t.insert("x", 10);
    t.insert("y", 20);
    t.insert("z", 30);
    assert_eq!(t.remove("y"), Some(20));
    assert_eq!(t.remove("y"), None);
    assert_eq!(t.keys(), vec!["x".to_string(), "z".to_string()]);
    assert_eq!(t.key_at(1), "z");
    assert_eq!(*t.value_at(1), 30);
}

#[test]
fn table_value_at_mut_changes_in_place() {
    let mut t: Table<Vec<u64>> = Table::new();
    t.insert("k", vec![1]);
    t.value_at_mut(0).push(2);
    assert_eq!(t.get("k"), Some(&vec![1, 2]));
}

#[test]
fn table_copy_is_equal() {
    let mut t: Table<u64> = Table::new();
    t.insert("p", 5);
    t.insert("q", 6);
    let c = t.copy();
    assert_eq!(c.keys(), t.keys());
    assert_eq!(c.get("q"), Some(&6));
}
