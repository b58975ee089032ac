use ccl::nestedmap::NestedMap;

#[test]
fn insert_then_assert_st() {
    let mut map: NestedMap<i32, i32> = NestedMap::default();

    for i in 0..1024_i32 {
        map.insert(i, i * 7);
    }

    for i in 0..1024_i32 {
        assert_eq!(i * 7, *map.get(&i).unwrap().value());
    }
}

#[test]
fn len() {
    let mut map: NestedMap<i32, i32> = NestedMap::default();

    for i in 0..1024_i32 {
        map.insert(i, i);
    }

    assert_eq!(map.len(), 1024);
}

#[test]
fn is_empty() {
    let map: NestedMap<i32, i32> = NestedMap::new();

    assert_eq!(map.is_empty(), true);
}

#[test]
fn iter_count_fold() {
    let mut map: NestedMap<i32, i32> = NestedMap::new();

    for i in 0..1024_i32 {
        map.insert(i, i);
    }

    for r in map.iter() {
        assert!(*r.1 >= 0 && *r.1 < 1024);
    }

    assert_eq!(map.iter().len(), 1024);
}

#[test]
fn intoiter() {
    let mut map: NestedMap<i32, i32> = NestedMap::new();

    for i in 0..1024_i32 {
        map.insert(i, i);
    }

    for r in &map.iter() {
        assert!(*r.1 >= 0 && *r.1 < 1024);
    }

    assert_eq!(map.iter().len(), 1024);
}

#[test]
fn string_keys_outlive_the_inserting_binding() {
    let mut map: NestedMap<String, String> = NestedMap::new();
    {
        let key = "aww yeah".to_string();
        let value = "f8381s".to_string();
        map.insert(key, value);
    }
    let guard = map.get(&"aww yeah".to_string()).unwrap();
    assert_eq!(guard.value(), "f8381s");
    assert_eq!(guard.key(), "aww yeah");
}

#[test]
fn get_until_removed() {
    let mut map: NestedMap<u64, u64> = NestedMap::new();
    map.insert(5, 50);
    assert_eq!(*map.get(&5).unwrap().value(), 50);
    assert!(map.contains_key(&5));
    map.insert(5, 51);
    assert_eq!(*map.get(&5).unwrap().value(), 51);
    map.remove(&5);
    assert!(map.get(&5).is_none());
    assert!(!map.contains_key(&5));
    assert_eq!(map.len(), 0);
}

#[test]
fn guarded_inserts_and_removes() {
    let mut map: NestedMap<u64, u64> = NestedMap::new();
    let guard = ccl::nestedmap::aquire_guard();
    for i in 0..100_u64 {
        map.insert_with_guard(i, i * 3, &guard);
    }
    assert_eq!(map.len(), 100);
    for i in 0..50_u64 {
        map.remove_with_guard(&i, &guard);
    }
    assert_eq!(map.len(), 50);
    let g2 = ccl::nestedmap::aquire_guard();
    assert_eq!(*map.get_with_guard(&70, g2).unwrap().value(), 210);
}
