//! Coordinates of an identifier in the four layers of the tree, and facts
//! about single bits of a word.
use vstd::prelude::*;

verus! {

/// An identifier naming one slot of a set.
pub type Index = u32;

/// Shift of the leaf layer. Each layer consumes six bits of an identifier,
/// one per bit position of a 64-bit word.
pub const SHIFT0: u32 = 0;

/// Shift of the group summary layer.
pub const SHIFT1: u32 = 6;

/// Shift of the mid summary layer.
pub const SHIFT2: u32 = 12;

/// Shift of the top summary layer.
pub const SHIFT3: u32 = 18;

/// Number of identifiers a set can hold: one per bit of the four-layer tree.
pub const CAPACITY: u32 = 0x100_0000;

/// Bit `k` of the word `w` is set.
pub open spec fn has_bit(w: u64, k: u64) -> bool {
    w & (1u64 << k) != 0
}

/// The position of `id` within its word at the layer of `shift`.
pub open spec fn row_spec(id: Index, shift: u32) -> usize {
    ((id >> shift) & 63) as usize
}

/// The index of the word of the layer above `shift` that holds `id`.
pub open spec fn offset_spec(id: Index, shift: u32) -> usize {
    (id >> shift) as usize
}

/// Position of `id` within its word at the layer of `shift`.
pub fn row(id: Index, shift: u32) -> (r: usize)
    requires
        shift < 32,
    ensures
        r == row_spec(id, shift),
        r < 64,
{
    let r = ((id >> shift) as usize) & 63;
    assert(((id >> shift) as usize) & 63 == ((id >> shift) & 63) as usize) by (bit_vector);
    assert(((id >> shift) & 63) < 64) by (bit_vector);
    r
}

/// Index of the word that holds `id` at the layer of `shift`.
pub fn offset(id: Index, shift: u32) -> (r: usize)
    requires
        shift < 32,
    ensures
        r == offset_spec(id, shift),
{
    (id >> shift) as usize
}

/// The single-bit mask of `id` within its word at the layer of `shift`.
pub fn mask(id: Index, shift: u32) -> (r: u64)
    requires
        shift < 32,
    ensures
        r == 1u64 << (row_spec(id, shift) as u64),
        row_spec(id, shift) < 64,
        forall|k: u64| k < 64 ==> (has_bit(r, k) <==> k == row_spec(id, shift)),
{
    let k = row(id, shift) as u64;
    proof {
        lemma_single_bit(k);
    }
    1u64 << k
}

/// The words that hold `id` at the group, mid and top summary layers.
pub fn offsets(id: Index) -> (r: (usize, usize, usize))
    ensures
        r == (offset_spec(id, SHIFT1), offset_spec(id, SHIFT2), offset_spec(id, SHIFT3)),
{
    (offset(id, SHIFT1), offset(id, SHIFT2), offset(id, SHIFT3))
}

/// The word `1 << k` has bit `k` and no other.
pub proof fn lemma_single_bit(k: u64)
    requires
        k < 64,
    ensures
        forall|j: u64| j < 64 ==> (has_bit(1u64 << k, j) <==> j == k),
{
    assert forall|j: u64| j < 64 implies (has_bit(1u64 << k, j) <==> j == k) by {
        assert(j < 64 && k < 64 ==> ((1u64 << k) & (1u64 << j) != 0 <==> j == k))
            by (bit_vector);
    }
}

/// Setting bit `k` of `w` keeps every other bit.
pub proof fn lemma_set_bit(w: u64, k: u64)
    requires
        k < 64,
    ensures
        forall|j: u64| j < 64 ==> (#[trigger] has_bit(w | (1u64 << k), j) <==> (has_bit(w, j) || j == k)),
{
    assert forall|j: u64| j < 64 implies (#[trigger] has_bit(w | (1u64 << k), j) <==> (has_bit(w, j)
        || j == k)) by {
        assert(j < 64 && k < 64 ==> ((w | (1u64 << k)) & (1u64 << j) != 0 <==> (w & (1u64 << j)
            != 0 || j == k))) by (bit_vector);
    }
}

/// Clearing bit `k` of `w` keeps every other bit, and makes the word smaller
/// when that bit was set.
pub proof fn lemma_clear_bit(w: u64, k: u64)
    requires
        k < 64,
    ensures
        forall|j: u64| j < 64 ==> (#[trigger] has_bit(w & !(1u64 << k), j) <==> (has_bit(w, j) && j != k)),
        has_bit(w, k) ==> w & !(1u64 << k) < w,
{
    assert forall|j: u64| j < 64 implies (#[trigger] has_bit(w & !(1u64 << k), j) <==> (has_bit(w, j)
        && j != k)) by {
        assert(j < 64 && k < 64 ==> ((w & !(1u64 << k)) & (1u64 << j) != 0 <==> (w & (1u64 << j)
            != 0 && j != k))) by (bit_vector);
    }
    assert(k < 64 && w & (1u64 << k) != 0 ==> w & !(1u64 << k) < w) by (bit_vector);
}

/// A word is zero exactly when none of its bits is set.
pub proof fn lemma_zero_iff(w: u64)
    ensures
        w == 0 <==> forall|j: u64| j < 64 ==> !has_bit(w, j),
{
    if w == 0 {
        assert forall|j: u64| j < 64 implies !has_bit(w, j) by {
            assert(w == 0 ==> w & (1u64 << j) == 0) by (bit_vector);
        }
    } else {
        lemma_lowest_bit(w);
    }
}

/// The lowest set bit of a non-zero word is set.
pub proof fn lemma_lowest_bit(w: u64)
    requires
        w != 0,
    ensures
        w.trailing_zeros() < 64,
        has_bit(w, w.trailing_zeros() as u64),
{
    broadcast use vstd::std_specs::bits::axiom_u64_trailing_zeros;
    let t = w.trailing_zeros() as u64;
    assert(t < 64 && (w >> t) & 1u64 == 1u64 ==> w & (1u64 << t) != 0) by (bit_vector);
}

/// The identifier at bit `b` of row `r` of group `g`.
pub open spec fn compose(g: u32, r: u32, b: u32) -> Index {
    (g << 12u32) | (r << 6u32) | b
}

/// How an identifier within capacity splits into its coordinates.
pub proof fn lemma_coordinates(id: Index)
    requires
        id < CAPACITY,
    ensures
        offset_spec(id, SHIFT3) < 64,
        offset_spec(id, SHIFT2) < 4096,
        offset_spec(id, SHIFT2) == 64 * offset_spec(id, SHIFT3) + row_spec(id, SHIFT2),
        offset_spec(id, SHIFT1) == 64 * offset_spec(id, SHIFT2) + row_spec(id, SHIFT1),
        row_spec(id, SHIFT3) == offset_spec(id, SHIFT3),
        row_spec(id, SHIFT2) < 64,
        row_spec(id, SHIFT1) < 64,
        row_spec(id, SHIFT0) < 64,
        row_spec(id, SHIFT0) == id & 63,
        id == compose(id >> SHIFT2, (id >> SHIFT1) & 63, id & 63),
{
    assert(id < 0x100_0000u32 ==> id >> 18u32 < 64) by (bit_vector);
    assert(id < 0x100_0000u32 ==> id >> 12u32 < 4096) by (bit_vector);
    assert(id >> 12u32 == 64 * (id >> 18u32) + ((id >> 12u32) & 63)) by (bit_vector);
    assert(id >> 6u32 == 64 * (id >> 12u32) + ((id >> 6u32) & 63)) by (bit_vector);
    assert(id < 0x100_0000u32 ==> (id >> 18u32) & 63 == id >> 18u32) by (bit_vector);
    assert((id >> 12u32) & 63 < 64) by (bit_vector);
    assert((id >> 6u32) & 63 < 64) by (bit_vector);
    assert((id >> 0u32) & 63 < 64) by (bit_vector);
    assert((id >> 0u32) & 63 == id & 63) by (bit_vector);
    assert(id == ((id >> 12u32) << 12u32) | (((id >> 6u32) & 63) << 6u32) | (id & 63))
        by (bit_vector);
}

/// The identifier at given coordinates is within capacity and has those coordinates.
pub proof fn lemma_compose(g: u32, r: u32, b: u32)
    requires
        g < 4096,
        r < 64,
        b < 64,
    ensures
        compose(g, r, b) < CAPACITY,
        compose(g, r, b) >> SHIFT2 == g,
        (compose(g, r, b) >> SHIFT1) & 63 == r,
        compose(g, r, b) & 63 == b,
{
    assert(g < 4096 && r < 64 && b < 64 ==> ((g << 12u32) | (r << 6u32) | b) < 0x100_0000u32)
        by (bit_vector);
    assert(g < 4096 && r < 64 && b < 64 ==> ((g << 12u32) | (r << 6u32) | b) >> 12u32 == g)
        by (bit_vector);
    assert(g < 4096 && r < 64 && b < 64 ==> (((g << 12u32) | (r << 6u32) | b) >> 6u32) & 63
        == r) by (bit_vector);
    assert(g < 4096 && r < 64 && b < 64 ==> ((g << 12u32) | (r << 6u32) | b) & 63 == b)
        by (bit_vector);
}

/// Setting a bit that is already set, or clearing one that is already
/// clear, leaves the word as it was.
pub proof fn lemma_bit_unchanged(w: u64, k: u64)
    requires
        k < 64,
    ensures
        has_bit(w, k) ==> w | (1u64 << k) == w,
        !has_bit(w, k) ==> w & !(1u64 << k) == w,
{
    assert(k < 64 && w & (1u64 << k) != 0 ==> w | (1u64 << k) == w) by (bit_vector);
    assert(k < 64 && w & (1u64 << k) == 0 ==> w & !(1u64 << k) == w) by (bit_vector);
}

} // verus!
