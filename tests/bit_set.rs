use sparse_ecs::atomic_bit_set::{index, most_sig_set_bit};
use sparse_ecs::AtomicBitSet;

#[test]
fn test_insert() {
    let mut set = AtomicBitSet::new();
    set.add(20);
    assert!(set.contains(20));
    assert!(!set.contains(21));
}

#[test]
fn test_removal() {
    let mut set = AtomicBitSet::new();
    set.add(20);
    set.add(21);
    assert!(set.contains(20));
    set.remove(20);
    assert!(!set.contains(20));
    assert!(set.contains(21));
}

#[test]
fn insert() {
    let mut c = AtomicBitSet::new();
    for i in 0..1_000 {
        assert!(!c.add(i));
        assert!(c.add(i));
    }

    for i in 0..1_000 {
        assert!(c.contains(i));
    }
}

#[test]
fn insert_100k() {
    let mut c = AtomicBitSet::new();
    for i in 0..100_000 {
        assert!(!c.add(i));
        assert!(c.add(i));
    }

    for i in 0..100_000 {
        assert!(c.contains(i));
    }
}

#[test]
fn remove() {
    let mut c = AtomicBitSet::new();
    for i in 0..1_000 {
        assert!(!c.add(i));
    }

    for i in 0..1_000 {
        assert!(c.contains(i));
        assert!(c.remove(i));
        assert!(!c.contains(i));
        assert!(!c.remove(i));
    }
}

#[test]
fn add_twice_reports_presence() {
    let mut c = AtomicBitSet::new();
    assert!(!c.add(12_345));
    assert!(c.contains(12_345));
    assert!(c.add(12_345));
    assert!(c.add(12_345));
    assert!(c.contains(12_345));
}

#[test]
fn remove_absent_value() {
    let mut c = AtomicBitSet::new();
    assert!(!c.remove(7));
    assert!(!c.contains(7));
    c.add(8);
    assert!(!c.remove(7));
    assert!(!c.contains(7));
    assert!(c.contains(8));
}

#[test]
fn add_leaves_neighbours_alone() {
    let mut c = AtomicBitSet::new();
    c.add(64);
    assert!(c.contains(64));
    assert!(!c.contains(63));
    assert!(!c.contains(65));
    assert!(!c.contains(128));
    assert!(!c.contains(0));
}

#[test]
fn bucket_boundaries() {
    let mut words: Vec<usize> = Vec::new();
    let mut k: usize = 2;
    while k < 40_000 {
        words.push(k - 2);
        words.push(k - 1);
        k *= 2;
    }
    let mut c = AtomicBitSet::new();
    for &w in &words {
        assert!(!c.add(w * 64));
        assert!(!c.add(w * 64 + 63));
    }
    for &w in &words {
        assert!(c.contains(w * 64));
        assert!(c.contains(w * 64 + 63));
        assert!(!c.contains(w * 64 + 1));
    }
}

#[test]
fn large_values() {
    let last_of_bucket_19 = ((1usize << 20) - 2) * 64 + 63;
    let first_of_bucket_20 = last_of_bucket_19 + 1;
    let mut c = AtomicBitSet::new();
    assert!(!c.add(last_of_bucket_19));
    assert!(!c.add(first_of_bucket_20));
    assert!(c.contains(last_of_bucket_19));
    assert!(c.contains(first_of_bucket_20));
    assert!(!c.contains(last_of_bucket_19 - 1));
    assert!(!c.contains(first_of_bucket_20 + 1));
    assert!(c.remove(first_of_bucket_20));
    assert!(!c.contains(first_of_bucket_20));
    assert!(c.contains(last_of_bucket_19));
    assert!(!c.remove(usize::MAX));
    assert!(!c.contains(usize::MAX));
}

#[test]
fn clear_empties_the_set() {
    let mut c = AtomicBitSet::new();
    for i in 0..1_000 {
        c.add(i * 64);
    }
    c.clear();
    for i in 0..1_000 {
        assert!(!c.contains(i * 64));
    }
    for i in 0..1_000 {
        assert!(!c.add(i * 1_000));
        assert!(c.add(i * 1_000));
    }
    for i in 0..1_000 {
        assert!(c.contains(i * 1_000));
    }
    assert!(!c.contains(1));
}

#[test]
fn index_of_words() {
    assert_eq!(index(0), (0, 1, 0));
    assert_eq!(index(1), (1, 2, 0));
    assert_eq!(index(2), (1, 2, 1));
    assert_eq!(index(3), (2, 4, 0));
    assert_eq!(index(6), (2, 4, 3));
    assert_eq!(index(7), (3, 8, 0));
    assert_eq!(index(1022), (9, 512, 511));
    assert_eq!(index(1023), (10, 1024, 0));
    assert_eq!(index(usize::MAX - 1), (63, 1 << 63, (1 << 63) - 1));
}

#[test]
fn highest_set_bit() {
    assert_eq!(most_sig_set_bit(0), None);
    assert_eq!(most_sig_set_bit(1), Some(0));
    assert_eq!(most_sig_set_bit(2), Some(1));
    assert_eq!(most_sig_set_bit(3), Some(1));
    assert_eq!(most_sig_set_bit(1_000), Some(9));
    assert_eq!(most_sig_set_bit(usize::MAX), Some(63));
}
