use atomic_bitset::util::{mask, offset, offsets, row, SHIFT0, SHIFT1, SHIFT2, SHIFT3};
use atomic_bitset::{AtomicBitSet, Index, CAPACITY};

fn count(set: &AtomicBitSet) -> usize {
    let mut n = 0;
    for w in 0..0x4_0000usize {
        n += set.layer0(w).count_ones() as usize;
    }
    n
}

#[test]
fn add_reports_previous_presence() {
    let mut set = AtomicBitSet::new();
    assert!(!set.add(5));
    assert!(set.add(5));
    assert!(set.contains(5));
    assert!(!set.contains(6));
}

#[test]
fn fresh_set_holds_nothing_until_added() {
    let mut set = AtomicBitSet::new();
    for id in [0, 1, 63, 64, 4095, 4096, 262_143, 262_144, CAPACITY - 1] {
        assert!(!set.contains(id));
        set.add(id);
        assert!(set.contains(id));
    }
}

#[test]
fn add_atomic_same_id_twice() {
    let mut set = AtomicBitSet::new();
    assert!(!set.add_atomic(7));
    assert!(set.add_atomic(7));
    assert!(set.contains(7));
}

#[test]
fn disjoint_batches_make_union() {
    let mut set = AtomicBitSet::new();
    for i in 0..5_000 {
        assert!(!set.add_atomic(i * 3));
    }
    for i in 0..5_000 {
        assert!(!set.add_atomic(i * 3 + 1));
    }
    assert_eq!(count(&set), 10_000);
    for i in 0..15_000 {
        assert_eq!(set.contains(i), i % 3 != 2);
    }
}

#[test]
fn strided_thousand_then_clear() {
    let mut set = AtomicBitSet::new();
    for i in 0..1_000 {
        set.add(i * 1_000);
    }
    assert_eq!(count(&set), 1_000);
    set.clear();
    assert_eq!(count(&set), 0);
    assert_eq!(set.layer3(), 0);
    for i in 0..1_000 {
        assert!(!set.contains(i * 1_000));
    }
}

#[test]
fn remove_forty_two() {
    let mut set = AtomicBitSet::new();
    assert!(!set.remove(42));
    set.add(42);
    assert!(set.remove(42));
    assert!(!set.remove(42));
    assert!(!set.contains(42));
}

#[test]
fn remove_keeps_neighbours() {
    let mut set = AtomicBitSet::new();
    set.add(100);
    set.add(101);
    set.add(1 << 20);
    assert!(set.remove(100));
    assert!(set.contains(101));
    assert!(set.contains(1 << 20));
    assert_eq!(set.layer1(0), 1 << 1);
    assert!(set.remove(101));
    assert_eq!(set.layer1(0), 0);
    assert_eq!(set.layer2(0), 0);
    assert_eq!(set.layer3(), 1 << 4);
    assert!(set.remove(1 << 20));
    assert_eq!(set.layer3(), 0);
}

#[test]
fn largest_identifier() {
    let mut set = AtomicBitSet::new();
    assert!(!set.add(CAPACITY - 1));
    assert!(set.contains(CAPACITY - 1));
    assert_eq!(set.layer3(), 1 << 63);
    assert_eq!(set.layer2(63), 1 << 63);
    assert_eq!(set.layer1(4095), 1 << 63);
    assert_eq!(set.layer0(0x3_ffff), 1 << 63);
    assert!(set.remove(CAPACITY - 1));
    assert_eq!(set.layer3(), 0);
}

#[test]
fn layer_words_of_one_identifier() {
    let mut set = AtomicBitSet::new();
    // 70_000 = 17 * 4096 + 5 * 64 + 48
    set.add(70_000);
    assert_eq!(set.layer3(), 1);
    assert_eq!(set.layer2(0), 1 << 17);
    assert_eq!(set.layer1(17), 1 << 5);
    assert_eq!(set.layer0(17 * 64 + 5), 1 << 48);
    assert_eq!(set.layer0(17 * 64 + 4), 0);
    assert_eq!(set.layer0(0), 0);
}

#[test]
fn clear_empty_set() {
    let mut set = AtomicBitSet::default();
    set.clear();
    assert_eq!(count(&set), 0);
    set.add(3);
    assert!(set.contains(3));
}

#[test]
fn coordinates() {
    let id: Index = 70_000;
    assert_eq!(offsets(id), (1093, 17, 0));
    assert_eq!(offset(id, SHIFT1), 1093);
    assert_eq!(row(id, SHIFT0), 48);
    assert_eq!(row(id, SHIFT1), 5);
    assert_eq!(row(id, SHIFT2), 17);
    assert_eq!(row(id, SHIFT3), 0);
    assert_eq!(mask(id, SHIFT0), 1 << 48);
    assert_eq!(mask(id, SHIFT2), 1 << 17);
    assert_eq!(offsets(CAPACITY - 1), (0x3_ffff, 4095, 63));
}
