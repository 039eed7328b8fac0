use turbo_gc_hmr::ordered_map::OrderedMap;

#[test]
fn insert_replaces_in_place_and_appends_new_keys() {
    let mut map = OrderedMap::new();
    assert!(map.is_empty());
    map.insert("b".to_string(), 1);
    map.insert("a".to_string(), 2);
    map.insert("b".to_string(), 3);
    assert_eq!(map.len(), 2);
    assert_eq!(map.find(&"b".to_string()), Some(0));
    assert_eq!(map.find(&"z".to_string()), None);
    assert_eq!(*map.value_at(0), 3);
    assert_eq!(map.into_vec(), vec![("b".to_string(), 3), ("a".to_string(), 2)]);
}

#[test]
fn insert_all_applies_pairs_in_order() {
    let mut map = OrderedMap::new();
    map.insert("x".to_string(), 0);
    map.insert_all(vec![
        ("y".to_string(), 1),
        ("x".to_string(), 2),
        ("y".to_string(), 3),
    ]);
    assert_eq!(map.into_vec(), vec![("x".to_string(), 2), ("y".to_string(), 3)]);
}
