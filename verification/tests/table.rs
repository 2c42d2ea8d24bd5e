use djbhash::hasher::djbhash;
use djbhash::keys::AsBytes;
use djbhash::map::HashMap;
use djbhash::set::HashSet;

#[test]
fn test_empty() {
    let m: HashMap<u64, u64> = HashMap::new();
    assert_eq!(m.len(), 0);
    assert_eq!(m.capacity(), 8);
    assert_eq!(m.find(&1), None);

    let mut count = 0usize;
    let mut it = m.iter();
    while let Some(_) = it.next() {
        count += 1;
    }
    assert_eq!(count, 0usize);
}

#[test]
fn test_one() {
    let mut m: HashMap<u64, u64> = HashMap::new();
    assert_eq!(m.len(), 0);
    assert!(m.insert(1, 400).is_none());
    assert_eq!(m.len(), 1);
    assert_eq!(m.capacity(), 8);
    match m.find(&1) {
        Some(y) => assert_eq!(*y, 400),
        None => panic!("failure!"),
    }
    match m.insert(1, 500) {
        Some(y) => assert_eq!(y, 400),
        _ => panic!("failed!"),
    }
    match m.find(&1) {
        Some(y) => assert_eq!(*y, 500),
        None => panic!("failure again!"),
    }

    let mut count = 0usize;
    let mut it = m.iter();
    while let Some(_) = it.next() {
        count += 1;
    }
    assert_eq!(count, 1usize);

    match m.pop(&1) {
        Some(y) => assert_eq!(y, 500),
        None => panic!("oh, noes!"),
    }
    assert_eq!(m.len(), 0);
}

#[test]
fn test_eight() {
    let mut m: HashMap<u64, u64> = HashMap::new();
    let v: [u64; 8] = [1, 3, 5, 7, 9, 11, 13, 15];
    for i in v.iter() {
        assert!(m.insert(*i, 100 * *i).is_none());
    }
    assert_eq!(m.len(), 8);
    assert_eq!(m.capacity(), 16);
    assert!(m.insert(3, 12000).is_some());

    let mut count = 0usize;
    let mut it = m.iter();
    while let Some(_) = it.next() {
        count += 1;
    }
    assert_eq!(count, 8usize);
}

#[test]
fn test_set_empty() {
    let s: HashSet<u64> = HashSet::new();
    assert_eq!(s.len(), 0);
    assert!(!s.contains(&3));
    let mut count = 0usize;
    let mut it = s.iter();
    while let Some(_) = it.next() {
        count += 1;
    }
    assert_eq!(count, 0usize);
}

#[test]
fn test_set_nonempty() {
    let mut s: HashSet<u64> = HashSet::new();
    let v: [u64; 8] = [1, 3, 5, 7, 9, 11, 13, 15];
    for i in v.iter() {
        assert!(s.insert(*i));
    }
    assert_eq!(s.len(), 8);
    assert!(s.contains(&3));
    let mut count = 0usize;
    let mut it = s.iter();
    while let Some(_) = it.next() {
        count += 1;
    }
    assert_eq!(count, 8usize);
    let empty: HashSet<u64> = HashSet::new();
    assert!(s.is_disjoint(&empty));
    assert!(empty.is_subset(&s));
    assert!(s.is_superset(&empty));
}

#[test]
fn test_djbhash() {
    let s = "abcdefghijklmnopqrstuvwxyz";
    assert_eq!(djbhash(s.as_bytes()), 10724590525090443198u64);
    assert_eq!(djbhash(&1u64.as_byte_vec()), 7567842156311844u64);
    assert_eq!(djbhash(&2u64.as_byte_vec()), 7567970011640775u64);
}

#[test]
fn test_map_1() {
    let mut map: HashMap<String, i32> = HashMap::new();
    map.insert("hello".to_string(), 1);
    assert_eq!(map.get(&"hello".to_string()), Some(&1));
    assert_eq!(map.get(&"foo".to_string()), None);
}

#[test]
fn test_tombstone_reclaim() {
    // Fill a fresh table, empty it, and fill it with fresh keys: the
    // tombstones must be reclaimed by rehashing instead of forcing the
    // capacity to keep doubling.
    let mut m: HashMap<u64, u64> = HashMap::new();
    for k in 0..8u64 {
        assert!(m.insert(k, k + 100).is_none());
    }
    assert_eq!(m.capacity(), 16);
    for k in 0..8u64 {
        assert_eq!(m.pop(&k), Some(k + 100));
    }
    assert_eq!(m.len(), 0);
    for k in 100..108u64 {
        assert!(m.insert(k, k).is_none());
    }
    assert_eq!(m.len(), 8);
    assert!(m.capacity() <= 32);
    for k in 0..8u64 {
        assert_eq!(m.get(&k), None);
    }
    for k in 100..108u64 {
        assert_eq!(m.get(&k), Some(&k));
    }
}

#[test]
fn test_remove_absent_twice() {
    let mut m: HashMap<u64, u64> = HashMap::new();
    m.insert(5, 50);
    assert_eq!(m.remove(&9), None);
    assert_eq!(m.len(), 1);
    assert_eq!(m.remove(&9), None);
    assert_eq!(m.len(), 1);
    assert_eq!(m.get(&5), Some(&50));
}

#[test]
fn test_byte_vec_keys_equiv() {
    // A byte-vector key and a string key with the same bytes name the same
    // entry: lookups go by the byte form.
    let mut m: HashMap<Vec<u8>, u64> = HashMap::new();
    m.insert(b"listen".to_vec(), 7);
    assert_eq!(m.find_equiv(&"listen".to_string()), Some(&7));
    assert_eq!(m.find_equiv(&"silent".to_string()), None);
    assert_eq!(m.get_equiv(&"listen".to_string()), Some(&7));
    assert_eq!(m.swap(b"listen".to_vec(), 8), Some(7));
    assert_eq!(m.get(&b"listen".to_vec()), Some(&8));

    let mut count = 0usize;
    let mut keys = m.keys();
    while let Some(k) = keys.next() {
        assert_eq!(k, &b"listen".to_vec());
        count += 1;
    }
    assert_eq!(count, 1);
}

#[test]
fn test_clear_keeps_capacity() {
    let mut m: HashMap<u64, u64> = HashMap::new();
    for k in 0..12u64 {
        m.insert(k, k);
    }
    let cap = m.capacity();
    m.clear();
    assert_eq!(m.len(), 0);
    assert_eq!(m.capacity(), cap);
    assert_eq!(m.get(&3), None);
}

#[test]
fn test_with_capacity_rounds_up() {
    let m: HashMap<u64, u64> = HashMap::with_capacity(20);
    assert_eq!(m.capacity(), 32);
    let small: HashMap<u64, u64> = HashMap::with_capacity(3);
    assert_eq!(small.capacity(), 8);
}

#[test]
fn test_set_algebra_mutual_inclusion() {
    let mut a: HashSet<u64> = HashSet::new();
    let mut b: HashSet<u64> = HashSet::new();
    for k in [2u64, 4, 6].iter() {
        a.insert(*k);
        b.insert(*k);
    }
    assert!(a.is_subset(&b) && b.is_subset(&a));
    b.insert(8);
    assert!(a.is_subset(&b));
    assert!(!b.is_subset(&a));
    assert!(!a.is_disjoint(&b));
    let mut c: HashSet<u64> = HashSet::new();
    c.insert(99);
    assert!(a.is_disjoint(&c));
    assert!(a.remove(&2));
    assert!(!a.remove(&2));
    assert_eq!(a.len(), 2);
}

#[test]
fn test_hasher_incremental() {
    // Feeding a byte string in two pieces accumulates the same digest as
    // feeding it whole.
    let mut h = djbhash::hasher::DJBHasher::new();
    h.write(b"abc");
    h.write(b"def");
    assert_eq!(h.finish(), djbhash(b"abcdef"));
}
