use split_ordered_map::growable_array::GrowableArray;

#[test]
fn empty_reads_none() {
    let a: GrowableArray<u64> = GrowableArray::new();
    assert_eq!(a.get(0), None);
    assert_eq!(a.get(123_456_789), None);
    assert_eq!(a.get(u64::MAX), None);
}

#[test]
fn set_then_get() {
    let mut a: GrowableArray<&'static str> = GrowableArray::new();
    a.set(0b001, "cat");
    assert_eq!(a.get(0b001), Some(&"cat"));
    // An index outside the first segment forces the tree to grow; the old
    // entry stays reachable.
    a.set(0xE_E000, "fox");
    assert_eq!(a.get(0b001), Some(&"cat"));
    assert_eq!(a.get(0xE_E000), Some(&"fox"));
    a.set(0b110, "owl");
    assert_eq!(a.get(0b110), Some(&"owl"));
    assert_eq!(a.get(0b111), None);
}

#[test]
fn overwrite_slot() {
    let mut a: GrowableArray<u32> = GrowableArray::new();
    a.set(7, 1);
    a.set(7, 2);
    assert_eq!(a.get(7), Some(&2));
}

#[test]
fn deep_growth() {
    let mut a: GrowableArray<u64> = GrowableArray::new();
    // Indices needing one, three and five levels of tree.
    for (i, idx) in [5u64, 1u64 << 25, 1u64 << 45, u64::MAX - 1].iter().enumerate() {
        a.set(*idx, i as u64);
    }
    assert_eq!(a.get(5), Some(&0));
    assert_eq!(a.get(1u64 << 25), Some(&1));
    assert_eq!(a.get(1u64 << 45), Some(&2));
    assert_eq!(a.get(u64::MAX - 1), Some(&3));
    assert_eq!(a.get(u64::MAX), None);
    assert_eq!(a.get((1u64 << 45) + 1), None);
}

#[test]
fn default_array_is_empty() {
    let a: GrowableArray<u8> = Default::default();
    assert_eq!(a.get(42), None);
}
