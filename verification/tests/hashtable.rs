use bump_allocator::hashmap::{HashMap, SimpleHasher};

fn lookup(m: &HashMap<u32>, key: u64) -> Option<u32> {
    let mut it = m.iter();
    let mut found = None;
    while let Some(p) = it.next() {
        if p.0 == key {
            found = Some(p.1);
        }
    }
    found
}

#[test]
fn hasher_starts_at_seed() {
    let h = SimpleHasher::new(7);
    assert_eq!(h.finish(), 7);
}

#[test]
fn hasher_absorbs_bytes_in_order() {
    let mut h = SimpleHasher::new(7);
    h.write(&[1, 2]);
    // ((7 * 31) + 1) * 31 + 2
    assert_eq!(h.finish(), 6760);
}

#[test]
fn hasher_wraps_on_overflow() {
    let mut h = SimpleHasher::new(u64::MAX);
    h.write(&[255]);
    assert_eq!(h.finish(), 224);
}

#[test]
fn empty_table_has_nothing() {
    let m: HashMap<u32> = HashMap::new();
    assert_eq!(m.size(), 0);
    let mut it = m.iter();
    assert!(it.next().is_none());
}

#[test]
fn insert_stores_and_counts_distinct_keys() {
    let mut m: HashMap<u32> = HashMap::new();
    m.insert(1, 10);
    m.insert(2, 20);
    m.insert(99, 990);
    assert_eq!(m.size(), 3);
    assert_eq!(lookup(&m, 1), Some(10));
    assert_eq!(lookup(&m, 2), Some(20));
    assert_eq!(lookup(&m, 99), Some(990));
    assert_eq!(lookup(&m, 3), None);
}

#[test]
fn insert_replaces_an_equal_key() {
    let mut m: HashMap<u32> = HashMap::with_seed(12345);
    m.insert(42, 1);
    m.insert(42, 2);
    assert_eq!(m.size(), 1);
    assert_eq!(lookup(&m, 42), Some(2));
}

#[test]
fn iter_yields_each_pair_once() {
    let mut m: HashMap<u32> = HashMap::new();
    for k in 0..10u64 {
        m.insert(k, (k as u32) * 2);
    }
    let mut seen = vec![false; 10];
    let mut count = 0;
    let mut it = m.iter();
    while let Some(p) = it.next() {
        assert!(p.0 < 10);
        assert_eq!(p.1, (p.0 as u32) * 2);
        assert!(!seen[p.0 as usize]);
        seen[p.0 as usize] = true;
        count += 1;
    }
    assert_eq!(count, 10);
}

#[test]
fn growth_past_the_load_limit_keeps_every_pair() {
    let mut m: HashMap<u32> = HashMap::with_seed(7);
    // more than twice the initial sixteen buckets, forcing a rehash
    for k in 0..100u64 {
        m.insert(k * 3 + 1, k as u32);
    }
    assert_eq!(m.size(), 100);
    for k in 0..100u64 {
        assert_eq!(lookup(&m, k * 3 + 1), Some(k as u32));
    }
    assert_eq!(lookup(&m, 2), None);
}

#[test]
fn same_seed_same_behavior() {
    let mut m1: HashMap<u32> = HashMap::with_seed(5);
    let mut m2: HashMap<u32> = HashMap::with_seed(5);
    for k in [3u64, 1 << 40, 7, u64::MAX] {
        m1.insert(k, 1);
        m2.insert(k, 1);
    }
    assert_eq!(m1.size(), m2.size());
    assert_eq!(lookup(&m1, 1 << 40), Some(1));
    assert_eq!(lookup(&m2, u64::MAX), Some(1));
}
