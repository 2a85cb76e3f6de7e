use atomic_bitset::{AtomicBitSet, Index};

/// Members in increasing order, found by descending only into the words
/// whose summary bits are set.
fn members(set: &AtomicBitSet) -> Vec<Index> {
    let mut out = Vec::new();
    let top = set.layer3();
    for j in 0..64usize {
        if top & (1u64 << j) == 0 {
            continue;
        }
        let mid = set.layer2(j);
        for k in 0..64usize {
            if mid & (1u64 << k) == 0 {
                continue;
            }
            let g = j * 64 + k;
            let group = set.layer1(g);
            for r in 0..64usize {
                if group & (1u64 << r) == 0 {
                    continue;
                }
                let w = g * 64 + r;
                let leaf = set.layer0(w);
                for b in 0..64usize {
                    if leaf & (1u64 << b) != 0 {
                        out.push((w * 64 + b) as Index);
                    }
                }
            }
        }
    }
    out
}

/// Members of both sets, found by descending into the and of their words.
fn common(a: &AtomicBitSet, b: &AtomicBitSet) -> Vec<Index> {
    let mut out = Vec::new();
    let top = a.layer3() & b.layer3();
    for j in 0..64usize {
        if top & (1u64 << j) == 0 {
            continue;
        }
        let mid = a.layer2(j) & b.layer2(j);
        for k in 0..64usize {
            if mid & (1u64 << k) == 0 {
                continue;
            }
            let g = j * 64 + k;
            let group = a.layer1(g) & b.layer1(g);
            for r in 0..64usize {
                if group & (1u64 << r) == 0 {
                    continue;
                }
                let w = g * 64 + r;
                let leaf = a.layer0(w) & b.layer0(w);
                for bit in 0..64usize {
                    if leaf & (1u64 << bit) != 0 {
                        out.push((w * 64 + bit) as Index);
                    }
                }
            }
        }
    }
    out
}

#[test]
fn insert() {
    let mut c = AtomicBitSet::new();
    for i in 0..1_000 {
        assert!(!c.add(i));
        assert!(c.add(i));
    }

    for i in 0..1_000 {
        assert!(c.contains(i));
    }
}

#[test]
fn insert_100k() {
    let mut c = AtomicBitSet::new();
    for i in 0..100_000 {
        assert!(!c.add(i));
        assert!(c.add(i));
    }

    for i in 0..100_000 {
        assert!(c.contains(i));
    }
}

#[test]
fn add_atomic() {
    let mut c = AtomicBitSet::new();
    for i in 0..1_000 {
        assert!(!c.add_atomic(i));
        assert!(c.add_atomic(i));
    }

    for i in 0..1_000 {
        assert!(c.contains(i));
    }
}

#[test]
fn add_atomic_100k() {
    let mut c = AtomicBitSet::new();
    for i in 0..100_000 {
        assert!(!c.add_atomic(i));
        assert!(c.add_atomic(i));
    }

    for i in 0..100_000 {
        assert!(c.contains(i));
    }
}

#[test]
fn remove() {
    let mut c = AtomicBitSet::new();
    for i in 0..1_000 {
        assert!(!c.add(i));
    }

    for i in 0..1_000 {
        assert!(c.contains(i));
        assert!(c.remove(i));
        assert!(!c.contains(i));
        assert!(!c.remove(i));
    }
}

#[test]
fn iter() {
    let mut c = AtomicBitSet::new();
    for i in 0..100_000 {
        c.add(i);
    }

    let mut count = 0;
    for (idx, i) in members(&c).into_iter().enumerate() {
        count += 1;
        assert_eq!(idx, i as usize);
    }
    assert_eq!(count, 100_000);
}

#[test]
fn iter_odd_even() {
    let mut odd = AtomicBitSet::new();
    let mut even = AtomicBitSet::new();
    for i in 0..100_000 {
        if i % 2 == 1 {
            odd.add(i);
        } else {
            even.add(i);
        }
    }

    assert_eq!(members(&odd).len(), 50_000);
    assert_eq!(members(&even).len(), 50_000);
    assert_eq!(common(&odd, &even).len(), 0);
}

#[test]
fn clear() {
    let mut set = AtomicBitSet::new();
    for i in 0..1_000 {
        set.add(i);
    }

    assert_eq!(members(&set).into_iter().sum::<u32>(), 500_500 - 1_000);

    assert_eq!(members(&set).len(), 1_000);
    set.clear();
    assert_eq!(members(&set).len(), 0);

    for i in 0..1_000 {
        set.add(i * 64);
    }

    assert_eq!(members(&set).len(), 1_000);
    set.clear();
    assert_eq!(members(&set).len(), 0);

    for i in 0..1_000 {
        set.add(i * 1_000);
    }

    assert_eq!(members(&set).len(), 1_000);
    set.clear();
    assert_eq!(members(&set).len(), 0);

    for i in 0..100 {
        set.add(i * 10_000);
    }

    assert_eq!(members(&set).len(), 100);
    set.clear();
    assert_eq!(members(&set).len(), 0);

    for i in 0..10 {
        set.add(i * 10_000);
    }

    assert_eq!(members(&set).len(), 10);
    set.clear();
    assert_eq!(members(&set).len(), 0);
}
