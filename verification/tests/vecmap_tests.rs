use ccl::key::MapKey;
use ccl::uniform_allocator::UniformAllocator;
use ccl::util::hash_with_nonce;
use ccl::util::UniformAllocExt;
use ccl::util::UniformDeallocExt;
use ccl::vecmap::VecMap;
use ccl::vecmap::THRESHOLD;

#[test]
fn vecmap_insert_get_remove() {
    let mut m: VecMap<u64, String> = VecMap::new();
    assert_eq!(m.len(), 0);
    assert!(m.insert(1, "one".to_string()).is_none());
    assert!(m.insert(2, "two".to_string()).is_none());
    let old = m.insert(1, "uno".to_string()).unwrap();
    assert_eq!(old.0, 1);
    assert_eq!(old.1, "one");
    assert_eq!(m.len(), 2);
    assert_eq!(m.get(&1).unwrap(), "uno");
    assert!(m.contains_key(&2));
    let entry = m.get_entry(&2).unwrap();
    assert_eq!(*entry.0, 2);
    assert_eq!(entry.1, "two");
    let gone = m.remove(&1).unwrap();
    assert_eq!(gone.1, "uno");
    assert!(m.get(&1).is_none());
    assert_eq!(m.len(), 1);
}

#[test]
fn vecmap_get_mut_and_iter() {
    let mut m: VecMap<i32, i32> = VecMap::with_capacity(8);
    for i in 0..10_i32 {
        m.insert(i, i);
    }
    *m.get_mut(&4).unwrap() = 40;
    assert_eq!(*m.get(&4).unwrap(), 40);
    assert_eq!(m.iter().len(), 10);
    m.clear();
    assert_eq!(m.len(), 0);
}

#[test]
fn vecmap_retain_and_alter() {
    let mut m: VecMap<u64, u64> = VecMap::new();
    for i in 0..20_u64 {
        m.insert(i, i);
    }
    let add_ten = |_k: &u64, v: &u64| -> u64 { *v + 10 };
    m.alter(&add_ten);
    assert_eq!(*m.get(&3).unwrap(), 13);
    let small = |_k: &u64, v: &u64| -> bool { *v < 15 };
    m.retain(&small);
    assert_eq!(m.len(), 5);
    assert!(m.contains_key(&4));
    assert!(!m.contains_key(&5));
}

#[test]
fn vecmap_should_convert_at_threshold() {
    let mut m: VecMap<u64, u64> = VecMap::new();
    assert!(m.should_convert());
    for i in 0..(THRESHOLD as u64 + 1) {
        m.insert(i, i);
    }
    assert!(!m.should_convert());
}

#[test]
fn keyed_hash_is_deterministic() {
    let a = hash_with_nonce(&"aww yeah".to_string(), 7);
    let b = hash_with_nonce(&"aww yeah".to_string(), 7);
    assert_eq!(a, b);
    let c = 1234_u64.key_hash(99);
    let d = 1234_u64.key_hash(99);
    assert_eq!(c, d);
    assert!(5_i32.key_eq(&5));
    assert!(!5_i32.key_eq(&6));
    assert_eq!("abc".to_string().key_clone(), "abc".to_string());
}

#[test]
fn allocator_round_trip() {
    let mut ua: UniformAllocator<String> = UniformAllocator::new(4);
    let h1 = ua.alloc_slot(9, "first".to_string());
    let h2 = ua.alloc_slot(9, "second".to_string());
    assert_ne!(h1, h2);
    assert_eq!(ua.dealloc(9, h1), Some("first".to_string()));
    assert_eq!(ua.dealloc(9, h1), None);
    assert_eq!(ua.dealloc(9, h2), Some("second".to_string()));
    // released slots are reused
    let h3 = ua.alloc_slot(9, "third".to_string());
    assert_eq!(ua.dealloc(9, h3), Some("third".to_string()));
}

#[test]
fn allocator_grows_past_a_segment() {
    let mut ua: UniformAllocator<u64> = UniformAllocator::default();
    let mut handles = Vec::new();
    for i in 0..300_u64 {
        handles.push(ua.alloc_slot(0, i));
    }
    for (i, h) in handles.iter().enumerate() {
        assert_eq!(ua.dealloc(0, *h), Some(i as u64));
    }
}

#[test]
fn allocator_ext_traits() {
    let mut ua: UniformAllocator<u64> = UniformAllocator::new(2);
    let h: (usize, usize) = UniformAllocExt::uniform_alloc(&mut ua, 5, 77);
    assert_eq!(h.uniform_dealloc(&mut ua, 5), Some(77));
    assert_eq!(h.uniform_dealloc(&mut ua, 5), None);
}
