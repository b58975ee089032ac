use ccl::dashmap::DashMap;
use ccl::dashmap::DashMapRefAny;
use ccl::dashmap::TryGetError;

fn use_map(e: &mut i32) {
    *e *= 2;
}

#[test]
fn move_deref() {
    let mut map: DashMap<i32, i32> = DashMap::default();
    map.insert(3, 69);
    let e = map.index_mut(&3);
    use_map(e);
    println!("e: {}", *map.index_mut(&3));
}

#[test]
fn insert_then_assert_1024() {
    let mut map: DashMap<i32, i32> = DashMap::default();

    for i in 0..1024_i32 {
        map.insert(i, i * 2);
    }

    let double = |_k: &i32, v: &i32| -> i32 { *v * 2 };
    map.alter(&double);

    for i in 0..1024_i32 {
        assert_eq!(i * 4, *map.get(&i).unwrap());
    }
}

#[test]
fn insert_then_iter_1024() {
    let mut map: DashMap<i32, i32> = DashMap::default();

    for i in 0..1024_i32 {
        map.insert(i, i * 2);
    }

    let double = |_k: &i32, v: &i32| -> i32 { *v * 2 };
    map.alter(&double);

    assert_eq!(map.iter().len(), 1024);
}

#[test]
fn insert_then_assert_str() {
    let mut map: DashMap<String, i32> = DashMap::default();
    map.insert("foo".to_string(), 51i32);
    assert_eq!(*map.index(&"foo".to_string()).value(), 51i32);
}

#[test]
fn new_zero_single_shard() {
    let mut map: DashMap<u64, u64> = DashMap::new(0);
    assert_eq!(map.chunks_count(), 1);
    map.insert(10, 20);
    map.insert(11, 22);
    assert_eq!(map.len(), 2);
    assert_eq!(*map.get(&10).unwrap(), 20);
    assert!(map.remove(&11).is_some());
    assert!(!map.contains_key(&11));
}

#[test]
fn with_capacity_zero() {
    let mut map: DashMap<u64, u64> = DashMap::with_capacity(3, 0);
    assert_eq!(map.chunks_count(), 8);
    assert_eq!(map.len(), 0);
    assert!(map.is_empty());
    map.insert(1, 1);
    assert!(!map.is_empty());
}

#[test]
fn default_sizes_for_cpus() {
    let map: DashMap<u64, u64> = DashMap::default();
    let cpus = num_cpus::get();
    assert!(map.chunks_count() >= 1);
    assert!(map.chunks_count().is_power_of_two());
    if cpus * 8 <= 1 << 30 {
        assert!(map.chunks_count() >= 8 * cpus);
    }
}

#[test]
fn remove_then_absent() {
    let mut map: DashMap<u64, String> = DashMap::default();
    map.insert(7, "seven".to_string());
    assert!(map.contains_key(&7));
    let removed = map.remove(&7).unwrap();
    assert_eq!(removed.0, 7);
    assert_eq!(removed.1, "seven");
    assert!(!map.contains_key(&7));
    assert!(map.get(&7).is_none());
    assert!(map.remove(&7).is_none());
}

#[test]
fn insert_twice_keeps_second() {
    let mut map: DashMap<u64, u64> = DashMap::default();
    map.insert(5, 100);
    map.insert(5, 200);
    assert_eq!(*map.get(&5).unwrap(), 200);
    assert_eq!(map.len(), 1);
}

#[test]
fn clear_then_len_zero() {
    let mut map: DashMap<u64, u64> = DashMap::default();
    for i in 0..100_u64 {
        map.insert(i, i);
    }
    assert_eq!(map.len(), 100);
    map.clear();
    assert_eq!(map.len(), 0);
    assert!(map.is_empty());
}

#[test]
fn retain_keeps_exactly_accepted() {
    let mut map: DashMap<u64, u64> = DashMap::default();
    for i in 0..100_u64 {
        map.insert(i, i);
    }
    let even = |_k: &u64, v: &u64| -> bool { *v % 2 == 0 };
    map.retain(&even);
    assert_eq!(map.len(), 50);
    for i in 0..100_u64 {
        assert_eq!(map.contains_key(&i), i % 2 == 0);
    }
}

#[test]
fn chunk_sizes_sum_to_len() {
    let mut map: DashMap<u64, u64> = DashMap::new(4);
    for i in 0..300_u64 {
        map.insert(i, i);
    }
    let mut total: usize = 0;
    for chunk in map.chunks() {
        total += chunk.iter().len();
    }
    assert_eq!(total, map.len());
    assert_eq!(total, 300);
}

#[test]
fn try_get_results() {
    let mut map: DashMap<u64, u64> = DashMap::default();
    map.insert(1, 10);
    assert_eq!(*map.try_get(&1).ok().unwrap().value(), 10);
    match map.try_get(&2) {
        Err(TryGetError::InvalidKey) => {}
        _ => panic!("expected InvalidKey"),
    }
    let timeout = std::time::Duration::from_millis(10);
    assert_eq!(*map.try_get_with_timeout(&1, timeout).ok().unwrap().value(), 10);
    assert_eq!(*map.try_get_mut(&1).ok().unwrap(), 10);
    match map.try_get_mut(&2) {
        Err(TryGetError::InvalidKey) => {}
        _ => panic!("expected InvalidKey"),
    }
    *map.try_get_mut_with_timeout(&1, timeout).ok().unwrap() = 11;
    assert_eq!(*map.get(&1).unwrap(), 11);
}

#[test]
fn get_or_insert_twice_same_value() {
    let mut map: DashMap<u64, u64> = DashMap::default();
    match map.get_or_insert(&9, 90) {
        DashMapRefAny::Unique(v) => assert_eq!(*v, 90),
        DashMapRefAny::Shared(_) => panic!("expected a fresh entry"),
    }
    match map.get_or_insert(&9, 91) {
        DashMapRefAny::Shared(v) => assert_eq!(*v, 90),
        DashMapRefAny::Unique(_) => panic!("expected the existing entry"),
    }
    assert_eq!(*map.get_or_insert(&9, 92).value(), 90);
}

#[test]
fn get_or_insert_with_lazy_default() {
    let mut map: DashMap<u64, String> = DashMap::default();
    let make = || "made".to_string();
    match map.get_or_insert_with(&4, make) {
        DashMapRefAny::Unique(v) => assert_eq!(v, "made"),
        DashMapRefAny::Shared(_) => panic!("expected a fresh entry"),
    }
    let make2 = || "other".to_string();
    assert_eq!(map.get_or_insert_with(&4, make2).value(), "made");
}

#[test]
fn iter_visits_each_entry_once() {
    let mut map: DashMap<u64, u64> = DashMap::new(2);
    for i in 0..64_u64 {
        map.insert(i, i + 1000);
    }
    let entries = map.iter();
    assert_eq!(entries.len(), 64);
    let mut seen = vec![false; 64];
    for e in &entries {
        let k = *e.key() as usize;
        assert!(!seen[k]);
        seen[k] = true;
        assert_eq!(*e.value(), *e.key() + 1000);
    }
}

#[test]
fn many_string_keys_route_consistently() {
    let mut map: DashMap<String, usize> = DashMap::new(3);
    for i in 0..200_usize {
        map.insert(format!("key-{}", i), i);
    }
    assert_eq!(map.len(), 200);
    for i in 0..200_usize {
        assert_eq!(*map.get(&format!("key-{}", i)).unwrap(), i);
    }
    for i in 0..100_usize {
        assert!(map.remove(&format!("key-{}", i)).is_some());
    }
    assert_eq!(map.len(), 100);
    assert!(!map.contains_key(&"key-0".to_string()));
    assert!(map.contains_key(&"key-150".to_string()));
}
