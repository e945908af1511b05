use split_ordered_map::cache::Cache;

#[test]
fn computes_once_per_key() {
    let mut c: Cache<u32> = Cache::new();
    assert_eq!(c.get_or_insert_with(3, |k| (k as u32) * 10), 30);
    // The second closure would give a different answer; it must not run.
    assert_eq!(c.get_or_insert_with(3, |_| 99), 30);
    assert_eq!(c.get_or_insert_with(4, |k| (k as u32) * 10), 40);
    assert_eq!(c.get_or_insert_with(3, |_| 77), 30);
}

#[test]
fn replace_recomputes() {
    let mut c: Cache<u32> = Cache::new();
    assert_eq!(c.get_or_insert_with(8, |_| 1), 1);
    assert_eq!(c.replace_with(8, |_| 2), 2);
    assert_eq!(c.get_or_insert_with(8, |_| 3), 2);
    // Replacing an absent key inserts it.
    assert_eq!(c.replace_with(9, |_| 5), 5);
    assert_eq!(c.get_or_insert_with(9, |_| 6), 5);
}

#[test]
fn cache_default_is_empty() {
    let mut c: Cache<u64> = Default::default();
    assert_eq!(c.get_or_insert_with(1, |k| k + 1), 2);
}
