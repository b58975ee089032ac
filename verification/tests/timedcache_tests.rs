use ccl::timedcache::TimedCache;
use ccl::timedcache::SAVE_INTERVAL_MS;
use ccl::timedcache::VALID_CHECK_INTERVAL_MS;
use ccl::timedcache::VALID_DURATION_MS;

#[test]
fn save_path_marks_entry_clean() {
    let load = |k: &i32| -> Option<String> { Some(k.to_string()) };
    let save = |_k: &i32, _v: &String| -> bool { true };
    let mut cache = TimedCache::new(load, save, None, None, None, 0);

    let r = cache.map_mut(&1919, 0, |mut v: String| {
        v.clear();
        (v, ())
    });
    assert!(r.is_some());
    let (_stamp, clean) = cache.entry_info(&1919).unwrap();
    assert!(!clean);

    cache.do_check(SAVE_INTERVAL_MS + 1);
    let (_stamp, clean) = cache.entry_info(&1919).unwrap();
    assert!(clean);
}

#[test]
fn dirty_entries_are_not_evicted() {
    let load = |k: &i32| -> Option<String> { Some(k.to_string()) };
    let save = |_k: &i32, _v: &String| -> bool { false };
    let mut cache = TimedCache::new(load, save, None, None, None, 0);

    cache.map_mut(&7, 0, |v: String| (v, ())).unwrap();
    let (_, clean) = cache.entry_info(&7).unwrap();
    assert!(!clean);

    let late = VALID_DURATION_MS + VALID_CHECK_INTERVAL_MS + SAVE_INTERVAL_MS + 10;
    cache.do_check(late);
    // the save kept failing, so the entry stayed dirty and was kept
    let (_, clean) = cache.entry_info(&7).unwrap();
    assert!(!clean);
}

#[test]
fn clean_stale_entries_are_evicted() {
    let load = |k: &i32| -> Option<String> { Some(k.to_string()) };
    let save = |_k: &i32, _v: &String| -> bool { true };
    let mut cache = TimedCache::new(load, save, None, None, None, 0);

    let got = cache.map(&3, 0, |v: &String| v.clone());
    assert_eq!(got.unwrap(), "3");
    let (stamp, clean) = cache.entry_info(&3).unwrap();
    assert_eq!(stamp, 0);
    assert!(clean);

    let late = VALID_DURATION_MS + VALID_CHECK_INTERVAL_MS + 10;
    cache.do_check(late);
    assert!(cache.entry_info(&3).is_none());
}

#[test]
fn failed_load_leaves_cache_unchanged() {
    let load = |_k: &i32| -> Option<String> { None };
    let save = |_k: &i32, _v: &String| -> bool { true };
    let mut cache = TimedCache::new(load, save, None, None, None, 0);

    assert!(cache.map(&1, 5, |v: &String| v.len()).is_none());
    assert!(cache.map_mut(&1, 5, |v: String| (v, ())).is_none());
    assert!(cache.entry_info(&1).is_none());
}

#[test]
fn map_reads_loaded_value() {
    let load = |k: &i32| -> Option<String> { Some(format!("v{}", k)) };
    let save = |_k: &i32, _v: &String| -> bool { true };
    let mut cache = TimedCache::new(load, save, Some(1000), Some(100), Some(10), 0);

    let n = cache.map(&42, 1, |v: &String| v.len()).unwrap();
    assert_eq!(n, 3);
    let again = cache.map(&42, 2, |v: &String| v.clone()).unwrap();
    assert_eq!(again, "v42");
}

#[test]
fn do_check_before_intervals_is_a_no_op() {
    let load = |k: &i32| -> Option<String> { Some(k.to_string()) };
    let save = |_k: &i32, _v: &String| -> bool { true };
    let mut cache = TimedCache::new(load, save, None, None, None, 0);

    cache.map_mut(&5, 0, |v: String| (v, ())).unwrap();
    let (_, clean_before) = cache.entry_info(&5).unwrap();
    assert!(!clean_before);

    cache.do_check(1);
    let (_, clean_after) = cache.entry_info(&5).unwrap();
    assert!(!clean_after);
}

#[test]
fn due_sweep_visits_every_dirty_entry() {
    let load = |k: &i32| -> Option<String> { Some(k.to_string()) };
    let save = |_k: &i32, _v: &String| -> bool { true };
    let mut cache = TimedCache::new(load, save, None, None, None, 0);

    for k in 0..50_i32 {
        cache.map_mut(&k, 0, |v: String| (v, ())).unwrap();
        let (_, clean) = cache.entry_info(&k).unwrap();
        assert!(!clean);
    }

    cache.do_check(SAVE_INTERVAL_MS + 1);
    for k in 0..50_i32 {
        let (_, clean) = cache.entry_info(&k).unwrap();
        assert!(clean);
    }
}
