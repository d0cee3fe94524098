//! The map over a list of pairs.

use netflector::linear_map::LinearMap;

#[test]
fn get_finds_what_insert_put() {
    let mut map = LinearMap::new();
    assert_eq!(map.insert("a".to_owned(), 1), None);
    assert_eq!(map.insert("b".to_owned(), 2), None);
    assert_eq!(map.get(&"a".to_owned()), Some(&1));
    assert_eq!(map.get(&"b".to_owned()), Some(&2));
    assert_eq!(map.get(&"c".to_owned()), None);
}

#[test]
fn insert_replaces_an_existing_key_and_returns_the_old_value() {
    let mut map = LinearMap::new();
    map.insert(7u32, "old");
    assert_eq!(map.insert(7, "new"), Some("old"));
    assert_eq!(map.get(&7), Some(&"new"));
}

#[test]
fn a_removed_key_is_gone_and_the_others_stay_in_order() {
    let mut map: LinearMap<u32, &str> = LinearMap::new();
    assert!(map.is_empty());
    map.insert(1, "one");
    map.insert(2, "two");
    map.insert(3, "three");
    assert_eq!(map.remove(&2), Some("two"));
    assert_eq!(map.remove(&2), None);
    assert_eq!(map.get(&2), None);
    assert_eq!(map.entries, [(1, "one"), (3, "three")]);
    assert_eq!(map.len(), 2);
}

#[test]
fn a_value_is_changed_in_place() {
    let mut map: LinearMap<u32, u8> = LinearMap::default();
    map.insert(7, 1);
    if let Some(value) = map.get_mut(&7) {
        *value = 9;
    }
    assert!(map.get_mut(&8).is_none());
    assert_eq!(map.get(&7), Some(&9));
}
