//! The four-layer bit tree: a top summary word, mid summary words, and group
//! blocks that hold the leaf words.
use vstd::prelude::*;

use crate::util::{
    compose, has_bit, lemma_clear_bit, lemma_compose, lemma_coordinates, lemma_set_bit,
    lemma_bit_unchanged, lemma_lowest_bit, lemma_zero_iff, mask, offset, offset_spec, offsets, row, row_spec, Index, CAPACITY, SHIFT0,
    SHIFT1, SHIFT2, SHIFT3,
};

verus! {

/// A leaf array of one word per row, allocated on first write.
#[derive(Debug)]
struct OnceAtom {
    inner: Option<Vec<u64>>,
}

impl OnceAtom {
    spec fn wf(&self) -> bool {
        self.inner is Some ==> self.inner->0@.len() == 64
    }

    /// Word `r` of the leaf array, zero while it is unallocated.
    spec fn word(&self, r: int) -> u64 {
        match self.inner {
            Some(v) => v@[r],
            None => 0,
        }
    }

    fn new() -> (r: OnceAtom)
        ensures
            r.inner is None,
    {
        OnceAtom { inner: None }
    }

    /// Allocates a zeroed leaf array unless one is there already.
    fn get_or_init(&mut self)
        requires
            old(self).wf(),
        ensures
            final(self).wf(),
            final(self).inner is Some,
            forall|r: int| 0 <= r < 64 ==> final(self).word(r) == old(self).word(r),
    {
        if self.inner.is_none() {
            self.inner = Some(vec![0u64; 64]);
        }
    }

    /// The leaf array, if it has been allocated.
    fn get(&self) -> (r: Option<&Vec<u64>>)
        ensures
            r is Some <==> self.inner is Some,
            r is Some ==> r->0@ == self.inner->0@,
    {
        self.inner.as_ref()
    }
}

/// One group summary word and the leaf words it summarises.
#[derive(Debug)]
struct AtomicBlock {
    mask: u64,
    atom: OnceAtom,
}

impl AtomicBlock {
    /// Bit `k` of the summary is set exactly when leaf word `k` is non-zero.
    spec fn wf(&self) -> bool {
        &&& self.atom.wf()
        &&& forall|k: u64| k < 64 ==> (has_bit(self.mask, k) <==> self.atom.word(k as int) != 0)
    }

    /// Bit `b` of leaf word `r` is set.
    spec fn holds(&self, r: int, b: u64) -> bool {
        has_bit(self.atom.word(r), b)
    }

    proof fn lemma_mask_zero(&self)
        requires
            self.wf(),
        ensures
            self.mask == 0 <==> forall|r: int, b: u64| 0 <= r < 64 && b < 64 ==> !self.holds(r, b),
    {
        lemma_zero_iff(self.mask);
        if self.mask == 0 {
            assert forall|r: int, b: u64| 0 <= r < 64 && b < 64 implies !self.holds(r, b) by {
                assert(!has_bit(self.mask, r as u64));
                lemma_zero_iff(self.atom.word(r));
            }
        } else {
            let k = choose|k: u64| k < 64 && has_bit(self.mask, k);
            lemma_zero_iff(self.atom.word(k as int));
            let b = choose|b: u64| b < 64 && has_bit(self.atom.word(k as int), b);
            assert(self.holds(k as int, b));
        }
    }

    fn new() -> (r: AtomicBlock)
        ensures
            r.wf(),
            r.atom.inner is None,
            r.mask == 0,
            forall|r2: int, b: u64| !r.holds(r2, b),
    {
        let r = AtomicBlock { mask: 0, atom: OnceAtom::new() };
        proof {
            lemma_zero_iff(0);
            assert forall|r2: int, b: u64| !r.holds(r2, b) by {
                assert(0u64 & (1u64 << b) == 0) by (bit_vector);
            }
        }
        r
    }

    /// Sets the leaf bit of `id`, allocating the leaf array if needed, and
    /// marks its row in the summary. Returns whether the bit was set before.
    fn add(&mut self, id: Index) -> (r: bool)
        requires
            old(self).wf(),
        ensures
            final(self).wf(),
            final(self).mask != 0,
            final(self).atom.inner is Some,
            r == old(self).holds(row_spec(id, SHIFT1) as int, row_spec(id, SHIFT0) as u64),
            forall|r2: int, b: u64|
                0 <= r2 < 64 && b < 64 ==> (final(self).holds(r2, b) <==> (old(self).holds(r2, b)
                    || (r2 == row_spec(id, SHIFT1) && b == row_spec(id, SHIFT0)))),
    {
        let i = row(id, SHIFT1);
        let m = mask(id, SHIFT0);
        self.atom.get_or_init();
        let mut v = self.atom.inner.take().unwrap();
        let old_word = v[i];
        v.set(i, old_word | m);
        self.atom.inner = Some(v);
        let summary = self.mask;
        self.mask = summary | mask(id, SHIFT1);
        proof {
            let b0 = row_spec(id, SHIFT0) as u64;
            let r1 = row_spec(id, SHIFT1) as u64;
            lemma_set_bit(old_word, b0);
            lemma_set_bit(summary, r1);
            lemma_zero_iff(old_word | m);
            lemma_zero_iff(self.mask);
            assert(has_bit(self.mask, r1));
            assert forall|k: u64| k < 64 implies (has_bit(self.mask, k) <==> self.atom.word(k as int)
                != 0) by {
                if k != r1 {
                    assert(self.atom.word(k as int) == old(self).atom.word(k as int));
                } else {
                    assert(has_bit(old_word | m, b0));
                }
            }
        }
        old_word & m != 0
    }

    /// Whether the leaf bit of `id` is set; never allocates.
    fn contains(&self, id: Index) -> (r: bool)
        requires
            self.wf(),
        ensures
            r == self.holds(row_spec(id, SHIFT1) as int, row_spec(id, SHIFT0) as u64),
    {
        match self.atom.get() {
            Some(layer0) => layer0[row(id, SHIFT1)] & mask(id, SHIFT0) != 0,
            None => {
                proof {
                    let b = row_spec(id, SHIFT0) as u64;
                    assert(0u64 & (1u64 << b) == 0) by (bit_vector);
                }
                false
            },
        }
    }

    /// Clears the leaf bit of `id`; when its leaf word becomes zero, clears
    /// the row's summary bit too. Returns whether the bit was set.
    fn remove(&mut self, id: Index) -> (r: bool)
        requires
            old(self).wf(),
        ensures
            final(self).wf(),
            final(self).atom.inner is Some <==> old(self).atom.inner is Some,
            r == old(self).holds(row_spec(id, SHIFT1) as int, row_spec(id, SHIFT0) as u64),
            forall|r2: int, b: u64|
                0 <= r2 < 64 && b < 64 ==> (final(self).holds(r2, b) <==> (old(self).holds(r2, b)
                    && !(r2 == row_spec(id, SHIFT1) && b == row_spec(id, SHIFT0)))),
    {
        match self.atom.inner.take() {
            Some(mut layer0) => {
                let i = row(id, SHIFT1);
                let m = mask(id, SHIFT0);
                let w = layer0[i];
                let was_set = w & m == m;
                let cleared = w & !m;
                layer0.set(i, cleared);
                self.atom.inner = Some(layer0);
                let summary = self.mask;
                if cleared == 0 {
                    self.mask = summary & !mask(id, SHIFT1);
                }
                proof {
                    let b0 = row_spec(id, SHIFT0) as u64;
                    let r1 = row_spec(id, SHIFT1) as u64;
                    assert(b0 < 64 ==> ((w & (1u64 << b0) == (1u64 << b0)) <==> (w & (1u64 << b0)
                        != 0))) by (bit_vector);
                    lemma_clear_bit(w, b0);
                    lemma_clear_bit(summary, r1);
                    lemma_zero_iff(cleared);
                    lemma_zero_iff(w);
                    assert forall|k: u64| k < 64 implies (has_bit(self.mask, k)
                        <==> self.atom.word(k as int) != 0) by {
                        if k != r1 {
                            assert(self.atom.word(k as int) == old(self).atom.word(k as int));
                        }
                    }
                }
                was_set
            },
            None => {
                proof {
                    let b = row_spec(id, SHIFT0) as u64;
                    assert(0u64 & (1u64 << b) == 0) by (bit_vector);
                    assert forall|r2: int, b2: u64| 0 <= r2 < 64 && b2 < 64 implies !self.holds(
                        r2,
                        b2,
                    ) by {
                        assert(0u64 & (1u64 << b2) == 0) by (bit_vector);
                    }
                }
                false
            },
        }
    }

    /// Zeroes the summary and every allocated leaf word; the leaf array is kept.
    fn clear(&mut self)
        requires
            old(self).wf(),
        ensures
            final(self).wf(),
            final(self).mask == 0,
            final(self).atom.inner is Some <==> old(self).atom.inner is Some,
            forall|r2: int, b: u64| 0 <= r2 < 64 && b < 64 ==> !final(self).holds(r2, b),
    {
        self.mask = 0;
        if let Some(mut layer0) = self.atom.inner.take() {
            let mut i: usize = 0;
            while i < layer0.len()
                invariant
                    layer0@.len() == 64,
                    i <= 64,
                    forall|j: int| 0 <= j < i ==> layer0@[j] == 0,
                decreases 64 - i,
            {
                layer0.set(i, 0);
                i += 1;
            }
            self.atom.inner = Some(layer0);
        }
        proof {
            lemma_zero_iff(0);
            assert forall|r2: int, b: u64| 0 <= r2 < 64 && b < 64 implies !self.holds(r2, b) by {
                assert(0u64 & (1u64 << b) == 0) by (bit_vector);
            }
        }
    }
}

/// A set of identifiers below `CAPACITY`, stored as a four-layer bit tree.
///
/// Bit `k` of a summary word is set exactly when the `k`-th word below it is
/// non-zero: the top word summarises the mid words, each mid word summarises
/// the group summary words of its blocks, and each group summary word
/// summarises its leaf words. Leaf arrays are allocated on first insertion
/// into their group.
#[derive(Debug)]
pub struct AtomicBitSet {
    layer3: u64,
    layer2: Vec<u64>,
    layer1: Vec<AtomicBlock>,
}

/// Some member of `s` lies in word `i` of the layer that `shift` addresses,
/// that is `x >> shift == i` for some member `x`.
pub open spec fn occupied(s: Set<Index>, shift: u32, i: int) -> bool {
    exists|x: Index| s.contains(x) && offset_spec(x, shift) as int == i
}

impl View for AtomicBitSet {
    type V = Set<Index>;

    closed spec fn view(&self) -> Set<Index> {
        Set::new(|id: Index| id < CAPACITY && self.holds(id))
    }
}

impl AtomicBitSet {
    /// The layers have their fixed sizes and every summary bit is set
    /// exactly when the word it summarises is non-zero.
    pub closed spec fn wf(&self) -> bool {
        &&& self.layer2@.len() == 64
        &&& self.layer1@.len() == 4096
        &&& forall|g: int| 0 <= g < 4096 ==> #[trigger] self.layer1@[g].wf()
        &&& forall|j: int, k: u64|
            0 <= j < 64 && k < 64 ==> (#[trigger] has_bit(self.layer2@[j], k) <==> self.layer1@[64
                * j + k].mask != 0)
        &&& forall|j: u64| j < 64 ==> (#[trigger] has_bit(self.layer3, j) <==> self.layer2@[j as int] != 0)
    }

    /// Group `g` has its leaf array: it is allocated on the first insertion
    /// into the group and kept until the set is dropped.
    pub closed spec fn allocated(&self, g: int) -> bool {
        self.layer1@[g].atom.inner is Some
    }

    /// The leaf bit of `id` is set.
    spec fn holds(&self, id: Index) -> bool {
        self.layer1@[offset_spec(id, SHIFT2) as int].holds(
            row_spec(id, SHIFT1) as int,
            row_spec(id, SHIFT0) as u64,
        )
    }

    /// Only `id` can sit at the coordinates of `id`.
    proof fn lemma_same_slot(id: Index, other: Index)
        requires
            id < CAPACITY,
            other < CAPACITY,
            offset_spec(id, SHIFT2) == offset_spec(other, SHIFT2),
            row_spec(id, SHIFT1) == row_spec(other, SHIFT1),
            row_spec(id, SHIFT0) == row_spec(other, SHIFT0),
        ensures
            id == other,
    {
        lemma_coordinates(id);
        lemma_coordinates(other);
    }

    /// Creates an empty set.
    pub fn new() -> (r: AtomicBitSet)
        ensures
            r.wf(),
            r@ == Set::<Index>::empty(),
            forall|g: int| 0 <= g < 4096 ==> !r.allocated(g),
    {
        let mut layer1: Vec<AtomicBlock> = Vec::new();
        let mut g: usize = 0;
        while g < 4096
            invariant
                g <= 4096,
                layer1@.len() == g,
                forall|i: int| 0 <= i < g ==> #[trigger] layer1@[i].wf() && layer1@[i].mask == 0
                    && layer1@[i].atom.inner is None && forall|r: int, b: u64| !layer1@[i].holds(
                    r,
                    b,
                ),
            decreases 4096 - g,
        {
            layer1.push(AtomicBlock::new());
            g += 1;
        }
        let r = AtomicBitSet { layer3: 0, layer2: vec![0u64; 64], layer1 };
        proof {
            lemma_zero_iff(0);
            assert forall|j: int, k: u64| 0 <= j < 64 && k < 64 implies (#[trigger] has_bit(
                r.layer2@[j],
                k,
            ) <==> r.layer1@[64 * j + k].mask != 0) by {
                assert(r.layer1@[64 * j + k].wf());
            }
            assert forall|x: Index| !#[trigger] r@.contains(x) by {
                if x < CAPACITY {
                    lemma_coordinates(x);
                    assert(r.layer1@[offset_spec(x, SHIFT2) as int].wf());
                }
            }
            assert(r@ =~= Set::<Index>::empty());
            assert forall|g: int| 0 <= g < 4096 implies !r.allocated(g) by {
                assert(r.layer1@[g].wf());
            }
        }
        r
    }

    /// Returns whether `id` is in the set.
    pub fn contains(&self, id: Index) -> (r: bool)
        requires
            self.wf(),
            id < CAPACITY,
        ensures
            r == self@.contains(id),
    {
        proof {
            lemma_coordinates(id);
        }
        let i = offset(id, SHIFT2);
        self.layer1[i].contains(id)
    }

    /// Adds `id` to the set; returns whether it was already there.
    ///
    /// Like every operation that changes the set, it needs exclusive access
    /// here. It differs from `add` only in that it always ors the summary
    /// bits in, also when the leaf bit was already set; repeating that
    /// propagation is harmless.
    pub fn add_atomic(&mut self, id: Index) -> (r: bool)
        requires
            old(self).wf(),
            id < CAPACITY,
        ensures
            final(self).wf(),
            r == old(self)@.contains(id),
            final(self)@ == old(self)@.insert(id),
            final(self).allocated(offset_spec(id, SHIFT2) as int),
            forall|g: int|
                0 <= g < 4096 && g != offset_spec(id, SHIFT2) ==> final(self).allocated(g)
                    == old(self).allocated(g),
    {
        proof {
            lemma_coordinates(id);
        }
        let (_, p1, p2) = offsets(id);
        let set = self.layer1[p1].add(id);
        let m2 = mask(id, SHIFT2);
        let w2 = self.layer2[p2];
        self.layer2.set(p2, w2 | m2);
        let w3 = self.layer3;
        let m3 = mask(id, SHIFT3);
        self.layer3 = w3 | m3;
        proof {
            self.lemma_after_insert(*old(self), id, w2, w3);
        }
        set
    }

    /// What `add_atomic` and `add` leave behind after the leaf bit of `id`
    /// is set and both summary bits above it are or-ed in.
    proof fn lemma_after_insert(&self, before: AtomicBitSet, id: Index, w2: u64, w3: u64)
        requires
            before.wf(),
            id < CAPACITY,
            self.layer2@.len() == 64,
            self.layer1@.len() == 4096,
            w2 == before.layer2@[offset_spec(id, SHIFT3) as int],
            w3 == before.layer3,
            self.layer2@ == before.layer2@.update(
                offset_spec(id, SHIFT3) as int,
                w2 | (1u64 << (row_spec(id, SHIFT2) as u64)),
            ),
            self.layer3 == w3 | (1u64 << (row_spec(id, SHIFT3) as u64)),
            forall|g: int|
                0 <= g < 4096 && g != offset_spec(id, SHIFT2) ==> self.layer1@[g]
                    == before.layer1@[g],
            self.layer1@[offset_spec(id, SHIFT2) as int].wf(),
            self.layer1@[offset_spec(id, SHIFT2) as int].mask != 0,
            forall|r2: int, b: u64|
                0 <= r2 < 64 && b < 64 ==> (self.layer1@[offset_spec(id, SHIFT2) as int].holds(
                    r2,
                    b,
                ) <==> (before.layer1@[offset_spec(id, SHIFT2) as int].holds(r2, b) || (r2
                    == row_spec(id, SHIFT1) && b == row_spec(id, SHIFT0)))),
        ensures
            self.wf(),
            self@ == before@.insert(id),
    {
        lemma_coordinates(id);
        let p1 = offset_spec(id, SHIFT2) as int;
        let p2 = offset_spec(id, SHIFT3) as int;
        let k2 = row_spec(id, SHIFT2) as u64;
        let k3 = row_spec(id, SHIFT3) as u64;
        assert(p1 == 64 * p2 + k2);
        assert(k3 == p2);
        lemma_set_bit(w2, k2);
        lemma_set_bit(w3, k3);
        lemma_zero_iff(self.layer2@[p2]);
        assert forall|g: int| 0 <= g < 4096 implies #[trigger] self.layer1@[g].wf() by {
            if g != p1 {
                assert(before.layer1@[g].wf());
            }
        }
        assert forall|j: int, k: u64| 0 <= j < 64 && k < 64 implies (#[trigger] has_bit(
            self.layer2@[j],
            k,
        ) <==> self.layer1@[64 * j + k].mask != 0) by {
            assert(has_bit(before.layer2@[j], k) <==> before.layer1@[64 * j + k].mask != 0);
            if j == p2 && k == k2 {
            } else if j == p2 {
                assert(64 * j + k != p1);
            } else {
                assert(64 * j + k != p1);
            }
        }
        assert forall|j: u64| j < 64 implies (#[trigger] has_bit(self.layer3, j)
            <==> self.layer2@[j as int] != 0) by {
            assert(has_bit(before.layer3, j) <==> before.layer2@[j as int] != 0);
            if j as int != p2 {
            } else {
                assert(has_bit(self.layer2@[p2], k2));
            }
        }
        assert forall|x: Index| #[trigger] self@.contains(x) <==> before@.insert(id).contains(x) by {
            if x < CAPACITY {
                lemma_coordinates(x);
                if offset_spec(x, SHIFT2) as int == p1 {
                    if row_spec(x, SHIFT1) == row_spec(id, SHIFT1) && row_spec(x, SHIFT0)
                        == row_spec(id, SHIFT0) {
                        Self::lemma_same_slot(id, x);
                    }
                }
            }
        }
        assert(self@ =~= before@.insert(id));
    }

    /// Adds `id` to the set; returns whether it was already there.
    ///
    /// With exclusive access the summary words are updated by plain reads
    /// and writes, and nothing above the leaf is touched when the bit was
    /// already set.
    pub fn add(&mut self, id: Index) -> (r: bool)
        requires
            old(self).wf(),
            id < CAPACITY,
        ensures
            final(self).wf(),
            r == old(self)@.contains(id),
            final(self)@ == old(self)@.insert(id),
            final(self).allocated(offset_spec(id, SHIFT2) as int),
            forall|g: int|
                0 <= g < 4096 && g != offset_spec(id, SHIFT2) ==> final(self).allocated(g)
                    == old(self).allocated(g),
    {
        proof {
            lemma_coordinates(id);
        }
        let (_, p1, p2) = offsets(id);
        let w2 = self.layer2[p2];
        let w3 = self.layer3;
        if self.layer1[p1].add(id) {
            proof {
                let k2 = row_spec(id, SHIFT2) as u64;
                let k3 = row_spec(id, SHIFT3) as u64;
                old(self).layer1@[p1 as int].lemma_mask_zero();
                assert(has_bit(w2, k2) <==> old(self).layer1@[64 * p2 + k2].mask != 0);
                lemma_bit_unchanged(w2, k2);
                lemma_zero_iff(w2);
                assert(has_bit(w3, k3) <==> w2 != 0);
                lemma_bit_unchanged(w3, k3);
                assert(self.layer2@ =~= old(self).layer2@.update(p2 as int, w2 | (1u64 << k2)));
                self.lemma_after_insert(*old(self), id, w2, w3);
            }
            return true;
        }
        self.layer2.set(p2, w2 | mask(id, SHIFT2));
        self.layer3 = w3 | mask(id, SHIFT3);
        proof {
            self.lemma_after_insert(*old(self), id, w2, w3);
        }
        false
    }

    /// Removes `id` from the set; returns whether it was there.
    ///
    /// A summary bit is cleared only when the word below it became zero, so
    /// each layer still summarises the one beneath.
    pub fn remove(&mut self, id: Index) -> (r: bool)
        requires
            old(self).wf(),
            id < CAPACITY,
        ensures
            final(self).wf(),
            r == old(self)@.contains(id),
            final(self)@ == old(self)@.remove(id),
            forall|g: int| 0 <= g < 4096 ==> final(self).allocated(g) == old(self).allocated(g),
    {
        proof {
            lemma_coordinates(id);
        }
        let ghost k2 = row_spec(id, SHIFT2) as u64;
        let ghost k3 = row_spec(id, SHIFT3) as u64;
        let (_, p1, p2) = offsets(id);
        let w2 = self.layer2[p2];
        let w3 = self.layer3;
        proof {
            old(self).layer1@[p1 as int].lemma_mask_zero();
            assert(has_bit(w2, k2) <==> old(self).layer1@[64 * p2 + k2].mask != 0);
            lemma_zero_iff(w2);
            assert(has_bit(w3, k3) <==> w2 != 0);
        }
        if !self.layer1[p1].remove(id) {
            proof {
                self.layer1@[p1 as int].lemma_mask_zero();
                lemma_bit_unchanged(w2, k2);
                lemma_bit_unchanged(w3, k3);
                assert(self.layer2@ =~= old(self).layer2@.update(p2 as int, w2));
                self.lemma_after_remove(*old(self), id);
            }
            return false;
        }
        if self.layer1[p1].mask != 0 {
            proof {
                assert(self.layer2@ =~= old(self).layer2@.update(p2 as int, w2));
                self.lemma_after_remove(*old(self), id);
            }
            return true;
        }
        let v = w2 & !mask(id, SHIFT2);
        self.layer2.set(p2, v);
        if v != 0 {
            proof {
                self.lemma_after_remove(*old(self), id);
            }
            return true;
        }
        self.layer3 = w3 & !mask(id, SHIFT3);
        proof {
            self.lemma_after_remove(*old(self), id);
        }
        true
    }

    /// What `remove` leaves behind: the leaf bit of `id` is clear, and each
    /// summary bit above it is cleared exactly when the word below became zero.
    proof fn lemma_after_remove(&self, before: AtomicBitSet, id: Index)
        requires
            before.wf(),
            id < CAPACITY,
            self.layer1@.len() == 4096,
            forall|g: int|
                0 <= g < 4096 && g != offset_spec(id, SHIFT2) ==> self.layer1@[g]
                    == before.layer1@[g],
            self.layer1@[offset_spec(id, SHIFT2) as int].wf(),
            forall|r2: int, b: u64|
                0 <= r2 < 64 && b < 64 ==> (self.layer1@[offset_spec(id, SHIFT2) as int].holds(
                    r2,
                    b,
                ) <==> (before.layer1@[offset_spec(id, SHIFT2) as int].holds(r2, b) && !(r2
                    == row_spec(id, SHIFT1) && b == row_spec(id, SHIFT0)))),
            self.layer2@ == before.layer2@.update(
                offset_spec(id, SHIFT3) as int,
                if self.layer1@[offset_spec(id, SHIFT2) as int].mask == 0 {
                    before.layer2@[offset_spec(id, SHIFT3) as int] & !(1u64 << (row_spec(
                        id,
                        SHIFT2,
                    ) as u64))
                } else {
                    before.layer2@[offset_spec(id, SHIFT3) as int]
                },
            ),
            self.layer3 == if self.layer2@[offset_spec(id, SHIFT3) as int] == 0 {
                before.layer3 & !(1u64 << (row_spec(id, SHIFT3) as u64))
            } else {
                before.layer3
            },
        ensures
            self.wf(),
            self@ == before@.remove(id),
    {
        lemma_coordinates(id);
        let p1 = offset_spec(id, SHIFT2) as int;
        let p2 = offset_spec(id, SHIFT3) as int;
        let k2 = row_spec(id, SHIFT2) as u64;
        let k3 = row_spec(id, SHIFT3) as u64;
        lemma_clear_bit(before.layer2@[p2], k2);
        lemma_clear_bit(before.layer3, k3);
        lemma_zero_iff(self.layer2@[p2]);
        lemma_zero_iff(before.layer2@[p2]);
        assert forall|g: int| 0 <= g < 4096 implies #[trigger] self.layer1@[g].wf() by {
            if g != p1 {
                assert(before.layer1@[g].wf());
            }
        }
        assert forall|j: int, k: u64| 0 <= j < 64 && k < 64 implies (#[trigger] has_bit(
            self.layer2@[j],
            k,
        ) <==> self.layer1@[64 * j + k].mask != 0) by {
            assert(has_bit(before.layer2@[j], k) <==> before.layer1@[64 * j + k].mask != 0);
            if j == p2 && k == k2 {
                if self.layer1@[p1].mask != 0 {
                    self.layer1@[p1].lemma_mask_zero();
                    before.layer1@[p1].lemma_mask_zero();
                }
            } else {
                assert(64 * j + k != p1);
            }
        }
        assert forall|j: u64| j < 64 implies (#[trigger] has_bit(self.layer3, j)
            <==> self.layer2@[j as int] != 0) by {
            assert(has_bit(before.layer3, j) <==> before.layer2@[j as int] != 0);
            if j as int == p2 && self.layer2@[p2] != 0 {
                let k = choose|k: u64| k < 64 && has_bit(self.layer2@[p2], k);
                assert(has_bit(before.layer2@[p2], k));
            }
        }
        assert forall|x: Index| #[trigger] self@.contains(x) <==> before@.remove(id).contains(x) by {
            if x < CAPACITY {
                lemma_coordinates(x);
                if offset_spec(x, SHIFT2) as int == p1 {
                    if row_spec(x, SHIFT1) == row_spec(id, SHIFT1) && row_spec(x, SHIFT0)
                        == row_spec(id, SHIFT0) {
                        Self::lemma_same_slot(id, x);
                    }
                }
            }
        }
        assert(self@ =~= before@.remove(id));
    }

    /// Empties the set.
    ///
    /// Walks the summaries from the top and clears only the groups whose
    /// summary bits are set, so the cost follows the number of non-empty
    /// groups rather than the capacity.
    pub fn clear(&mut self)
        requires
            old(self).wf(),
        ensures
            final(self).wf(),
            final(self)@ == Set::<Index>::empty(),
            forall|g: int| 0 <= g < 4096 ==> final(self).allocated(g) == old(self).allocated(g),
    {
        let ghost before = *self;
        let mut m3 = self.layer3;
        self.layer3 = 0;
        proof {
            assert forall|g: int| 0 <= g < 4096 && !has_bit(m3, (g / 64) as u64) implies (
            #[trigger] self.layer1@[g]).mask == 0 by {
                let j = g / 64;
                let k = (g % 64) as u64;
                assert(has_bit(before.layer3, j as u64) <==> before.layer2@[j] != 0);
                lemma_zero_iff(before.layer2@[j]);
                assert(has_bit(before.layer2@[j], k) <==> before.layer1@[64 * j + k].mask != 0);
            }
            assert forall|j: int| 0 <= j < 64 && !has_bit(m3, j as u64) implies #[trigger] self.layer2@[j]
                == 0 by {
                assert(has_bit(before.layer3, j as u64) <==> before.layer2@[j] != 0);
            }
        }
        while m3 != 0
            invariant
                before.wf(),
                self.layer2@.len() == 64,
                self.layer1@.len() == 4096,
                self.layer3 == 0,
                forall|g: int| 0 <= g < 4096 ==> #[trigger] self.layer1@[g].wf(),
                forall|g: int|
                    0 <= g < 4096 ==> (#[trigger] self.layer1@[g].atom.inner is Some
                        <==> before.layer1@[g].atom.inner is Some),
                forall|g: int|
                    0 <= g < 4096 ==> (if has_bit(m3, (g / 64) as u64) {
                        #[trigger] self.layer1@[g] == before.layer1@[g]
                    } else {
                        self.layer1@[g].mask == 0
                    }),
                forall|j: int|
                    0 <= j < 64 ==> (if has_bit(m3, j as u64) {
                        #[trigger] self.layer2@[j] == before.layer2@[j]
                    } else {
                        self.layer2@[j] == 0
                    }),
            decreases m3,
        {
            proof {
                lemma_lowest_bit(m3);
            }
            let bit = m3.trailing_zeros() as usize;
            let ghost m3_before = m3;
            m3 = m3 & !(1u64 << bit);
            proof {
                lemma_clear_bit(m3_before, bit as u64);
            }
            let offset = bit * 64;
            let mut m2 = self.layer2[bit];
            self.layer2.set(bit, 0);
            proof {
                assert forall|g: int| 0 <= g < 4096 && g / 64 == bit && !has_bit(m2, (g % 64) as u64) implies (
                #[trigger] self.layer1@[g]).mask == 0 by {
                    let k = (g % 64) as u64;
                    assert(has_bit(before.layer2@[bit as int], k) <==> before.layer1@[64 * bit + k].mask != 0);
                }
            }
            while m2 != 0
                invariant
                    before.wf(),
                    bit < 64,
                    offset == bit * 64,
                    !has_bit(m3, bit as u64),
                    self.layer2@.len() == 64,
                    self.layer1@.len() == 4096,
                    self.layer3 == 0,
                    forall|g: int| 0 <= g < 4096 ==> #[trigger] self.layer1@[g].wf(),
                    forall|g: int|
                        0 <= g < 4096 ==> (#[trigger] self.layer1@[g].atom.inner is Some
                            <==> before.layer1@[g].atom.inner is Some),
                    forall|g: int|
                        0 <= g < 4096 ==> (if g / 64 == bit {
                            if has_bit(m2, (g % 64) as u64) {
                                #[trigger] self.layer1@[g] == before.layer1@[g]
                            } else {
                                self.layer1@[g].mask == 0
                            }
                        } else if has_bit(m3, (g / 64) as u64) {
                            self.layer1@[g] == before.layer1@[g]
                        } else {
                            self.layer1@[g].mask == 0
                        }),
                    forall|j: int|
                        0 <= j < 64 ==> (if has_bit(m3, j as u64) {
                            #[trigger] self.layer2@[j] == before.layer2@[j]
                        } else {
                            self.layer2@[j] == 0
                        }),
                decreases m2,
            {
                proof {
                    lemma_lowest_bit(m2);
                }
                let b = m2.trailing_zeros() as usize;
                let ghost m2_before = m2;
                m2 = m2 & !(1u64 << b);
                proof {
                    lemma_clear_bit(m2_before, b as u64);
                }
                // The group's summary and leaf words are cleared whole: it is
                // only one row of words, and picking out the set ones costs more.
                self.layer1[offset + b].clear();
            }
            proof {
                lemma_zero_iff(0);
            }
        }
        proof {
            lemma_zero_iff(0);
            assert forall|g: int| 0 <= g < 4096 implies (#[trigger] self.layer1@[g]).mask == 0 by {
                assert(!has_bit(0, (g / 64) as u64));
            }
            assert forall|j: int, k: u64| 0 <= j < 64 && k < 64 implies (#[trigger] has_bit(
                self.layer2@[j],
                k,
            ) <==> self.layer1@[64 * j + k].mask != 0) by {
                assert(self.layer2@[j] == 0);
                assert(self.layer1@[64 * j + k].mask == 0);
            }
            assert forall|x: Index| !#[trigger] self@.contains(x) by {
                if x < CAPACITY {
                    lemma_coordinates(x);
                    let g = offset_spec(x, SHIFT2) as int;
                    assert(self.layer1@[g].mask == 0);
                    self.layer1@[g].lemma_mask_zero();
                }
            }
            assert(self@ =~= Set::<Index>::empty());
        }
    }

    /// Leaf word `r` of group `g` is non-zero exactly when some member lies
    /// in the word `64 * g + r` of the leaf layer.
    proof fn lemma_word_occupied(&self, g: int, r: int)
        requires
            self.wf(),
            0 <= g < 4096,
            0 <= r < 64,
        ensures
            self.layer1@[g].atom.word(r) != 0 <==> occupied(self@, SHIFT1, 64 * g + r),
    {
        let w = self.layer1@[g].atom.word(r);
        lemma_zero_iff(w);
        if w != 0 {
            let b = choose|b: u64| b < 64 && has_bit(w, b);
            let x = compose(g as u32, r as u32, b as u32);
            lemma_compose(g as u32, r as u32, b as u32);
            lemma_coordinates(x);
            assert(self@.contains(x));
        }
        if occupied(self@, SHIFT1, 64 * g + r) {
            let x = choose|x: Index| self@.contains(x) && offset_spec(x, SHIFT1) as int == 64 * g + r;
            lemma_coordinates(x);
            assert(self.layer1@[g].holds(r, row_spec(x, SHIFT0) as u64));
        }
    }

    /// Group `g` has a non-zero summary exactly when some member lies in it.
    proof fn lemma_group_occupied(&self, g: int)
        requires
            self.wf(),
            0 <= g < 4096,
        ensures
            self.layer1@[g].mask != 0 <==> occupied(self@, SHIFT2, g),
    {
        let blk = self.layer1@[g];
        assert(blk.wf());
        lemma_zero_iff(blk.mask);
        if blk.mask != 0 {
            let r = choose|r: u64| r < 64 && has_bit(blk.mask, r);
            self.lemma_word_occupied(g, r as int);
            let x = choose|x: Index| self@.contains(x) && offset_spec(x, SHIFT1) as int == 64 * g + r;
            lemma_coordinates(x);
        }
        if occupied(self@, SHIFT2, g) {
            let x = choose|x: Index| self@.contains(x) && offset_spec(x, SHIFT2) as int == g;
            lemma_coordinates(x);
            let r = row_spec(x, SHIFT1) as int;
            self.lemma_word_occupied(g, r);
            assert(has_bit(blk.mask, r as u64));
        }
    }

    /// Mid word `j` is non-zero exactly when some member lies under it.
    proof fn lemma_mid_occupied(&self, j: int)
        requires
            self.wf(),
            0 <= j < 64,
        ensures
            self.layer2@[j] != 0 <==> occupied(self@, SHIFT3, j),
    {
        let w = self.layer2@[j];
        lemma_zero_iff(w);
        if w != 0 {
            let k = choose|k: u64| k < 64 && has_bit(w, k);
            assert(has_bit(w, k) <==> self.layer1@[64 * j + k].mask != 0);
            self.lemma_group_occupied(64 * j + k);
            let x = choose|x: Index| self@.contains(x) && offset_spec(x, SHIFT2) as int == 64 * j + k;
            lemma_coordinates(x);
        }
        if occupied(self@, SHIFT3, j) {
            let x = choose|x: Index| self@.contains(x) && offset_spec(x, SHIFT3) as int == j;
            lemma_coordinates(x);
            let k = row_spec(x, SHIFT2) as u64;
            self.lemma_group_occupied(64 * j + k);
            assert(has_bit(w, k) <==> self.layer1@[64 * j + k].mask != 0);
        }
    }

    /// The top summary word: bit `j` is set exactly when some member lies
    /// under mid word `j`.
    pub fn layer3(&self) -> (r: u64)
        requires
            self.wf(),
        ensures
            forall|j: u64| j < 64 ==> (#[trigger] has_bit(r, j) <==> occupied(self@, SHIFT3, j as int)),
    {
        proof {
            assert forall|j: u64| j < 64 implies (#[trigger] has_bit(self.layer3, j) <==> occupied(
                self@,
                SHIFT3,
                j as int,
            )) by {
                self.lemma_mid_occupied(j as int);
            }
        }
        self.layer3
    }

    /// Mid summary word `i`: bit `k` is set exactly when some member lies in
    /// group `64 * i + k`.
    pub fn layer2(&self, i: usize) -> (r: u64)
        requires
            self.wf(),
            i < 64,
        ensures
            forall|k: u64| k < 64 ==> (#[trigger] has_bit(r, k) <==> occupied(self@, SHIFT2, 64 * i + k)),
    {
        proof {
            assert forall|k: u64| k < 64 implies (#[trigger] has_bit(self.layer2@[i as int], k)
                <==> occupied(self@, SHIFT2, 64 * i + k)) by {
                assert(has_bit(self.layer2@[i as int], k) <==> self.layer1@[64 * i + k].mask != 0);
                self.lemma_group_occupied(64 * i + k);
            }
        }
        self.layer2[i]
    }

    /// Group summary word `i`: bit `k` is set exactly when some member lies
    /// in leaf word `64 * i + k`.
    pub fn layer1(&self, i: usize) -> (r: u64)
        requires
            self.wf(),
            i < 4096,
        ensures
            forall|k: u64| k < 64 ==> (#[trigger] has_bit(r, k) <==> occupied(self@, SHIFT1, 64 * i + k)),
    {
        proof {
            assert forall|k: u64| k < 64 implies (#[trigger] has_bit(self.layer1@[i as int].mask, k)
                <==> occupied(self@, SHIFT1, 64 * i + k)) by {
                assert(self.layer1@[i as int].wf());
                self.lemma_word_occupied(i as int, k as int);
            }
        }
        self.layer1[i].mask
    }

    /// Leaf word `i`, zero when its group has no leaf array: bit `k` is set
    /// exactly when `64 * i + k` is a member.
    pub fn layer0(&self, i: usize) -> (r: u64)
        requires
            self.wf(),
            i < 0x4_0000,
        ensures
            forall|k: u64| k < 64 ==> (#[trigger] has_bit(r, k) <==> self@.contains((64 * i + k) as Index)),
    {
        let o1 = i / 64;
        let o0 = i % 64;
        proof {
            assert(self.layer1@[o1 as int].wf());
        }
        let r = match self.layer1[o1].atom.get() {
            Some(layer0) => layer0[o0],
            None => 0,
        };
        proof {
            assert forall|k: u64| k < 64 implies (#[trigger] has_bit(r, k) <==> self@.contains(
                (64 * i + k) as Index,
            )) by {
                let x = (64 * i + k) as Index;
                assert(o1 < 4096 && o0 < 64 && k < 64 ==> ((o1 as u32) << 12u32) | ((o0 as u32)
                    << 6u32) | (k as u32) == (o1 as u32) * 4096 + (o0 as u32) * 64 + (k as u32))
                    by (bit_vector);
                lemma_compose(o1 as u32, o0 as u32, k as u32);
                assert(x == compose(o1 as u32, o0 as u32, k as u32));
                lemma_coordinates(x);
                assert(0u64 & (1u64 << k) == 0) by (bit_vector);
            }
        }
        r
    }
}

impl Default for AtomicBitSet {
    fn default() -> (r: Self)
        ensures
            r.wf(),
            r@ == Set::<Index>::empty(),
            forall|g: int| 0 <= g < 4096 ==> !r.allocated(g),
    {
        AtomicBitSet::new()
    }
}

/// A fresh set does not hold `id`, and after `add(id)` it does.
pub proof fn lemma_add_then_contains(fresh: AtomicBitSet, after: AtomicBitSet, id: Index)
    requires
        fresh@ == Set::<Index>::empty(),
        after@ == fresh@.insert(id),
    ensures
        !fresh@.contains(id),
        after@.contains(id),
{
}

/// Adding the same identifier twice: the first call reports it absent, the
/// second reports it present, and the second leaves the set as it was.
pub proof fn lemma_add_twice(
    before: AtomicBitSet,
    once: AtomicBitSet,
    twice: AtomicBitSet,
    id: Index,
)
    requires
        !before@.contains(id),
        once@ == before@.insert(id),
        twice@ == once@.insert(id),
    ensures
        !before@.contains(id),
        once@.contains(id),
        twice@ == once@,
{
    assert(twice@ =~= once@);
}

/// Removing from an empty set reports absence and leaves it empty; removing
/// right after adding reports presence and leaves the identifier absent, so
/// removing it again reports absence and changes nothing.
pub proof fn lemma_remove_after_add(
    empty: AtomicBitSet,
    empty_removed: AtomicBitSet,
    before: AtomicBitSet,
    added: AtomicBitSet,
    removed: AtomicBitSet,
    again: AtomicBitSet,
    id: Index,
)
    requires
        empty@ == Set::<Index>::empty(),
        empty_removed@ == empty@.remove(id),
        added@ == before@.insert(id),
        removed@ == added@.remove(id),
        again@ == removed@.remove(id),
    ensures
        !empty@.contains(id),
        empty_removed@ == Set::<Index>::empty(),
        added@.contains(id),
        !removed@.contains(id),
        again@ == removed@,
{
    assert(empty_removed@ =~= Set::<Index>::empty());
    assert(again@ =~= removed@);
}

/// Adding the identifiers of `ids` one after another to an empty set, each
/// step as `add_atomic` leaves it, gives after `n` steps exactly the first
/// `n` identifiers.
pub proof fn lemma_added_in_turn(states: Seq<AtomicBitSet>, ids: Seq<Index>, n: int)
    requires
        states.len() == ids.len() + 1,
        states[0]@ == Set::<Index>::empty(),
        forall|i: int| 0 <= i < ids.len() ==> #[trigger] states[i + 1]@ == states[i]@.insert(ids[i]),
        0 <= n <= ids.len(),
    ensures
        states[n]@ == ids.subrange(0, n).to_set(),
    decreases n,
{
    if n == 0 {
        assert(ids.subrange(0, 0).to_set() =~= Set::<Index>::empty());
    } else {
        lemma_added_in_turn(states, ids, n - 1);
        let i = n - 1;
        assert(states[i + 1]@ == states[i]@.insert(ids[i]));
        assert(ids.subrange(0, n) =~= ids.subrange(0, n - 1).push(ids[n - 1]));
        ids.subrange(0, n - 1).lemma_push_to_set_commute(ids[n - 1]);
    }
}

/// Adding, one call after another, the identifiers of `a` and then those of
/// `b`, two lists without repeats that share no identifier, leaves exactly
/// the identifiers of both, as many as the two lists hold together.
pub proof fn lemma_disjoint_union(states: Seq<AtomicBitSet>, a: Seq<Index>, b: Seq<Index>)
    requires
        a.no_duplicates(),
        b.no_duplicates(),
        forall|i: int, j: int| 0 <= i < a.len() && 0 <= j < b.len() ==> a[i] != b[j],
        states.len() == a.len() + b.len() + 1,
        states[0]@ == Set::<Index>::empty(),
        forall|i: int|
            0 <= i < a.len() + b.len() ==> #[trigger] states[i + 1]@ == states[i]@.insert(
                (a + b)[i],
            ),
    ensures
        forall|x: Index|
            states.last()@.contains(x) <==> (a.contains(x) || b.contains(x)),
        states.last()@.len() == a.len() + b.len(),
{
    let ids = a + b;
    lemma_added_in_turn(states, ids, ids.len() as int);
    assert(ids.subrange(0, ids.len() as int) =~= ids);
    assert forall|i: int, j: int| 0 <= i < ids.len() && 0 <= j < ids.len() && i != j implies ids[i]
        != ids[j] by {
        if i < a.len() && j >= a.len() {
            assert(ids[j] == b[j - a.len()]);
        } else if j < a.len() && i >= a.len() {
            assert(ids[i] == b[i - a.len()]);
        } else if i >= a.len() {
            assert(ids[i] == b[i - a.len()] && ids[j] == b[j - a.len()]);
        }
    }
    assert(ids.no_duplicates());
    ids.unique_seq_to_set();
    assert forall|x: Index| states.last()@.contains(x) <==> (a.contains(x) || b.contains(x)) by {
        if a.contains(x) {
            let i = choose|i: int| 0 <= i < a.len() && a[i] == x;
            assert(ids[i] == x);
        }
        if b.contains(x) {
            let j = choose|j: int| 0 <= j < b.len() && b[j] == x;
            assert(ids[a.len() + j] == x);
        }
        if ids.contains(x) {
            let i = choose|i: int| 0 <= i < ids.len() && ids[i] == x;
            if i < a.len() {
                assert(a[i] == x);
            } else {
                assert(b[i - a.len()] == x);
            }
        }
    }
}

} // verus!
