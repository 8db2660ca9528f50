use context_server_store::str_map::StrMap;
use std::sync::Arc;

#[test]
fn entries_are_found_under_their_keys() {
    let mut map: StrMap<u32> = StrMap::new();
    assert_eq!(map.len(), 0);
    assert!(map.get("a").is_none());
    assert_eq!(map.insert(Arc::from("a"), 1), None);
    assert_eq!(map.insert(Arc::from("b"), 2), None);
    assert_eq!(map.get("a"), Some(&1));
    assert_eq!(map.get("b"), Some(&2));
    assert!(map.contains_key("b"));
    assert!(!map.contains_key("c"));
    assert_eq!(map.len(), 2);
}

#[test]
fn insertion_replaces_the_value_of_a_key() {
    let mut map: StrMap<u32> = StrMap::new();
    map.insert(Arc::from("a"), 1);
    map.insert(Arc::from("b"), 2);
    assert_eq!(map.insert(Arc::from("a"), 3), Some(1));
    assert_eq!(map.len(), 2);
    assert_eq!(map.get("a"), Some(&3));
    assert_eq!(map.get("b"), Some(&2));
}

#[test]
fn removal_takes_one_entry() {
    let mut map: StrMap<u32> = StrMap::new();
    map.insert(Arc::from("a"), 1);
    map.insert(Arc::from("b"), 2);
    assert_eq!(map.remove("a"), Some(1));
    assert_eq!(map.remove("a"), None);
    assert_eq!(map.len(), 1);
    assert_eq!(map.get("b"), Some(&2));
    let (key, value) = map.entry_at(0);
    assert_eq!(&**key, "b");
    assert_eq!(*value, 2);
}
