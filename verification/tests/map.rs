use split_ordered_map::split_ordered_list::SplitOrderedList;

#[test]
fn round_trip() {
    let mut m: SplitOrderedList<String> = SplitOrderedList::new();
    assert_eq!(m.insert(37, String::from("x")), Ok(()));
    assert_eq!(m.lookup(37), Some(&String::from("x")));
    assert_eq!(m.delete(37), Ok(String::from("x")));
    assert_eq!(m.lookup(37), None);
}

#[test]
fn duplicate_insert_rejected() {
    let mut m: SplitOrderedList<u32> = SplitOrderedList::new();
    assert_eq!(m.insert(5, 1), Ok(()));
    // The second insert returns the new value unconsumed; the first value
    // stays in place.
    assert_eq!(m.insert(5, 2), Err(2));
    assert_eq!(m.lookup(5), Some(&1));
    assert_eq!(m.count(), 1);
}

#[test]
fn delete_missing_fails() {
    let mut m: SplitOrderedList<u32> = SplitOrderedList::new();
    assert_eq!(m.delete(0), Err(()));
    m.insert(1, 10).unwrap();
    assert_eq!(m.delete(2), Err(()));
    assert_eq!(m.count(), 1);
}

#[test]
fn concrete_scenario() {
    // Start empty with size 2; five inserts exceed size * LOAD_FACTOR, so
    // the table doubles to at least 4.
    let mut m: SplitOrderedList<u64> = SplitOrderedList::new();
    assert_eq!(m.size(), 2);
    for k in 0u64..5 {
        assert_eq!(m.insert(k, k + 100), Ok(()));
    }
    assert_eq!(m.count(), 5);
    assert!(m.size() >= 4);
    for k in 0u64..5 {
        assert_eq!(m.lookup(k), Some(&(k + 100)));
    }
    assert_eq!(m.delete(2), Ok(102));
    assert_eq!(m.lookup(2), None);
    for k in [0u64, 1, 3, 4] {
        assert_eq!(m.lookup(k), Some(&(k + 100)));
    }
    assert_eq!(m.count(), 4);
}

#[test]
fn growth_keeps_entries() {
    // Push the table through several doublings; every earlier key must stay
    // reachable.
    let mut m: SplitOrderedList<u64> = SplitOrderedList::new();
    let n: u64 = 300;
    for k in 0..n {
        // Spread the keys over the space a little.
        let key = k * 2654435761 % (1u64 << 40);
        assert_eq!(m.insert(key, k), Ok(()));
        assert_eq!(m.lookup(key), Some(&k));
    }
    assert!(m.size() > 2);
    assert_eq!(m.count(), n);
    for k in 0..n {
        let key = k * 2654435761 % (1u64 << 40);
        assert_eq!(m.lookup(key), Some(&k));
    }
}

#[test]
fn disjoint_ranges_insert_then_delete() {
    // Eight disjoint key ranges, inserted and then deleted range by range;
    // the map ends empty.
    let mut m: SplitOrderedList<u64> = SplitOrderedList::new();
    let per: u64 = 250;
    for t in 0u64..8 {
        for i in 0..per {
            let key = (t << 32) | i;
            assert_eq!(m.insert(key, t * per + i), Ok(()));
        }
    }
    assert_eq!(m.count(), 8 * per);
    for t in 0u64..8 {
        for i in 0..per {
            let key = (t << 32) | i;
            assert_eq!(m.delete(key), Ok(t * per + i));
        }
    }
    assert_eq!(m.count(), 0);
    for t in 0u64..8 {
        assert_eq!(m.lookup(t << 32), None);
    }
}

#[test]
fn edge_keys() {
    let mut m: SplitOrderedList<&'static str> = SplitOrderedList::new();
    let top = (1u64 << 63) - 1;
    assert_eq!(m.insert(0, "zero"), Ok(()));
    assert_eq!(m.insert(top, "top"), Ok(()));
    assert_eq!(m.lookup(0), Some(&"zero"));
    assert_eq!(m.lookup(top), Some(&"top"));
    assert_eq!(m.delete(0), Ok("zero"));
    assert_eq!(m.lookup(top), Some(&"top"));
    assert_eq!(m.lookup(0), None);
}

#[test]
fn default_is_empty() {
    let m: SplitOrderedList<u32> = Default::default();
    assert_eq!(m.count(), 0);
    assert_eq!(m.size(), 2);
    assert_eq!(m.lookup(0), None);
    assert_eq!(m.lookup(12345), None);
}
