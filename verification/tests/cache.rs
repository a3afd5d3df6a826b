use samepic::{Key, LruCache};

#[test]
fn keys_are_monotonic() {
    let k = Key::new();
    assert_eq!(k.index, 0);
    assert_eq!(k.next().index, 1);
    let mut cache: LruCache<u32> = LruCache::new(3);
    let k0 = cache.push(10);
    let k1 = cache.push(20);
    let k2 = cache.push(30);
    assert_eq!(k0.index, 0);
    assert_eq!(k1.index, 1);
    assert_eq!(k2.index, 2);
}

#[test]
fn residency_never_exceeds_capacity() {
    // Pushing more entries than the capacity keeps residency at the bound.
    let mut cache: LruCache<u32> = LruCache::new(2);
    for v in 0..10u32 {
        cache.push(v);
        assert!(cache.len() <= 2);
    }
    assert_eq!(cache.len(), 2);
}

#[test]
fn least_recently_used_is_evicted_first() {
    let mut cache: LruCache<&'static str> = LruCache::new(2);
    let ka = cache.push("a");
    let kb = cache.push("b");
    // Touch a so that b becomes the least recently used entry.
    let got = cache.get_or_insert(ka, || "fresh-a");
    assert_eq!(*got, "a");
    // A third entry now evicts b, not a.
    let _kc = cache.push("c");
    let a_again = cache.get_or_insert(ka, || "rebuilt-a");
    assert_eq!(*a_again, "a");
    let b_again = cache.get_or_insert(kb, || "rebuilt-b");
    assert_eq!(*b_again, "rebuilt-b");
}

#[test]
fn get_or_insert_fills_a_miss() {
    let mut cache: LruCache<u32> = LruCache::new(2);
    let k0 = cache.push(5);
    let k1 = cache.push(6);
    let k2 = cache.push(7);
    // k0 was evicted by the third push; the factory rebuilds it.
    let v = *cache.get_or_insert(k0, || 55);
    assert_eq!(v, 55);
    assert_eq!(cache.len(), 2);
    // k2 stayed resident the whole time.
    assert_eq!(*cache.get_or_insert(k2, || 0), 7);
    // k1 was evicted when the k0 miss was filled.
    assert_eq!(*cache.get_or_insert(k1, || 66), 66);
}
