//! The map from names to values.

use mermaid_parser::name_map::NameMap;

#[test]
fn empty_map_holds_nothing() {
    let map: NameMap<u32> = NameMap::new();
    assert_eq!(map.len(), 0);
    assert!(map.is_empty());
    assert!(!map.contains_key(""));
    assert_eq!(map.get("a"), None);
    let default_map: NameMap<u32> = NameMap::default();
    assert!(default_map.is_empty());
}

#[test]
fn insert_adds_or_replaces() {
    let mut map = NameMap::new();
    assert_eq!(map.insert("a".to_string(), 1), None);
    assert_eq!(map.insert("b".to_string(), 2), None);
    assert_eq!(map.insert("".to_string(), 0), None);
    assert_eq!(map.insert("a".to_string(), 3), Some(1));
    assert_eq!(map.len(), 3);
    assert!(!map.is_empty());
    assert_eq!(map.get("a"), Some(&3));
    assert_eq!(map.get("b"), Some(&2));
    assert_eq!(map.get(""), Some(&0));
    assert_eq!(map.get("A"), None);
    assert!(map.contains_key("b"));
    assert!(!map.contains_key("c"));
}

#[test]
fn names_keep_the_order_of_first_insertion() {
    let mut map = NameMap::new();
    map.insert("b".to_string(), 1);
    map.insert("a".to_string(), 2);
    map.insert("b".to_string(), 3);
    assert_eq!(map.len(), 2);
    assert_eq!(map.name_at(0), "b");
    assert_eq!(map.name_at(1), "a");
    assert_eq!(map.value_at(0), &3);
    assert_eq!(map.value_at(1), &2);
}

#[test]
fn get_mut_changes_in_place() {
    let mut map = NameMap::new();
    map.insert("a".to_string(), vec![1]);
    map.insert("b".to_string(), vec![]);
    map.get_mut("a").unwrap().push(2);
    assert!(map.get_mut("c").is_none());
    assert_eq!(map.get("a"), Some(&vec![1, 2]));
    assert_eq!(map.get("b"), Some(&vec![]));
    assert_eq!(map.len(), 2);
    assert_eq!(map.name_at(0), "a");
}
