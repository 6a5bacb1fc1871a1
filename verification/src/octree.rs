use vstd::prelude::*;

use crate::vecmath::V3i;

verus! {

/// Bit `i` of `x`.
pub open spec fn bit(x: u32, i: u32) -> bool {
    (x >> i) & 1u32 == 1u32
}

/// The number of set bits of `x` among the positions `0..n`.
pub open spec fn count_bits_below(x: u32, n: nat) -> nat
    decreases n,
{
    if n == 0 {
        0
    } else {
        count_bits_below(x, (n - 1) as nat) + if bit(x, (n - 1) as u32) { 1nat } else { 0nat }
    }
}

/// The child-existence byte of a node word (`0xCC______`).
pub open spec fn child_byte(data: u32) -> u32 {
    data >> 24u32
}

/// The leaf byte of a node word (`0x__LL____`).
pub open spec fn leaf_byte(data: u32) -> u32 {
    (data >> 16u32) & 0xFFu32
}

/// Whether child `i` (0..8) of a node word exists.
pub open spec fn spec_has_child(data: u32, i: u32) -> bool {
    bit(data, (i + 24) as u32)
}

/// Whether child `i` (0..8) of a node word is a leaf.
pub open spec fn spec_is_leaf(data: u32, i: u32) -> bool {
    bit(data, (i + 16) as u32)
}

/// The rank of child `i` among the existing children of a node word:
/// the offset of its slot from the node's child pointer.
pub open spec fn child_rank(data: u32, i: u32) -> nat {
    count_bits_below(child_byte(data), i as nat)
}

/// The number of existing children of a node word.
pub open spec fn child_count(data: u32) -> nat {
    count_bits_below(child_byte(data), 8)
}

/// The low 16 bits of a node word: the child pointer of a branch node,
/// or the material of a leaf.
pub fn get_ending(data: u32) -> (r: u32)
    ensures
        r == data & 0xFFFFu32,
        r < 0x10000,
{
    assert(data & 0xFFFFu32 < 0x10000) by (bit_vector);
    data & 0xFFFF
}

proof fn lemma_single_bit_test(data: u32, s: u32)
    requires
        s < 32,
    ensures
        (data & (1u32 << s) != 0u32) == bit(data, s),
{
    assert((data & (1u32 << s) != 0u32) == ((data >> s) & 1u32 == 1u32)) by (bit_vector)
        requires
            s < 32,
    ;
}

/// Whether child `position` of the node word `data` is a leaf.
pub fn is_leaf(data: u32, position: u32) -> (r: bool)
    requires
        position < 16,
    ensures
        r == spec_is_leaf(data, position),
{
    let n = 1_u32 << (position + 16);
    proof {
        lemma_single_bit_test(data, (position + 16) as u32);
    }
    (data & n) != 0
}

/// Whether child `position` of the node word `data` exists.
pub fn has_child(data: u32, position: u32) -> (r: bool)
    requires
        position < 8,
    ensures
        r == spec_has_child(data, position),
{
    let n = 1_u32 << (position + 24);
    proof {
        lemma_single_bit_test(data, (position + 24) as u32);
    }
    (data & n) != 0
}

/// The number of set bits of `x`.
pub fn count_ones(x: u32) -> (r: u32)
    ensures
        r == count_bits_below(x, 32),
        r <= 32,
{
    let mut c: u32 = 0;
    let mut i: u32 = 0;
    while i < 32
        invariant
            i <= 32,
            c == count_bits_below(x, i as nat),
            c <= i,
        decreases 32 - i,
    {
        if (x >> i) & 1 == 1 {
            c = c + 1;
        }
        i = i + 1;
    }
    c
}

/// The child of a node that a ray enters next, when it leaves child
/// `current` (0..8, bit 0 = x, bit 1 = y, bit 2 = z) through the far plane
/// of axis `exit_plane` (0 = x, 1 = y, 2 = z): the neighbour one step up
/// that axis, or none where the ray leaves the node.
pub fn next_sub_voxel(current: u32, exit_plane: u32) -> (r: Option<u32>)
    ensures
        r == if current < 8 && exit_plane < 3 && !bit(current, exit_plane) {
            Some(current | (1u32 << exit_plane))
        } else {
            None::<u32>
        },
{
    if current >= 8 || exit_plane >= 3 {
        return None;
    }
    let step = 1u32 << exit_plane;
    proof {
        lemma_single_bit_test(current, exit_plane);
    }
    if current & step != 0 {
        None
    } else {
        Some(current | step)
    }
}

proof fn lemma_masked_bit(x: u32, t: u32, j: u32)
    requires
        t < 32,
        j < 32,
    ensures
        bit(x & (((1u32 << t) - 1u32) as u32), j) == (j < t && bit(x, j)),
{
    assert((((x & (((1u32 << t) - 1u32) as u32)) >> j) & 1u32 == 1u32) == (j < t && ((x >> j)
        & 1u32 == 1u32))) by (bit_vector)
        requires
            t < 32,
            j < 32,
    ;
}

proof fn lemma_count_masked(x: u32, t: u32, n: nat)
    requires
        t < 32,
        n <= 32,
    ensures
        count_bits_below(x & (((1u32 << t) - 1u32) as u32), n) == count_bits_below(
            x,
            if n < t { n } else { t as nat },
        ),
    decreases n,
{
    if n > 0 {
        lemma_count_masked(x, t, (n - 1) as nat);
        lemma_masked_bit(x, t, (n - 1) as u32);
    }
}

/// The number of existing children of the node word `data` that come before
/// child `true_sub_voxel`.
pub fn child_pop_count(data: u32, true_sub_voxel: u32) -> (r: u32)
    requires
        true_sub_voxel < 32,
    ensures
        r == count_bits_below(child_byte(data), true_sub_voxel as nat),
{
    let child_byte = data >> 24;
    assert(1u32 << true_sub_voxel >= 1u32) by (bit_vector)
        requires
            true_sub_voxel < 32,
    ;
    let mask = (1u32 << true_sub_voxel) - 1;
    let bits_before = child_byte & mask;
    proof {
        lemma_count_masked(child_byte, true_sub_voxel, 32);
    }
    count_ones(bits_before)
}

pub(crate) proof fn lemma_or_bit(m: u32, i: u32, j: u32)
    requires
        i < 32,
        j < 32,
    ensures
        bit(m | (1u32 << i), j) == (bit(m, j) || j == i),
{
    assert((((m | (1u32 << i)) >> j) & 1u32 == 1u32) == (((m >> j) & 1u32 == 1u32) || j == i))
        by (bit_vector)
        requires
            i < 32,
            j < 32,
    ;
}

pub(crate) proof fn lemma_small_mask_bits(m: u32, n: u32, j: u32)
    requires
        n < 32,
        m < (1u32 << n),
        n <= j < 32,
    ensures
        !bit(m, j),
{
    assert(!((m >> j) & 1u32 == 1u32)) by (bit_vector)
        requires
            n < 32,
            m < (1u32 << n),
            n <= j < 32,
    ;
}

/// The count of set bits below `n` depends only on those bits.
pub(crate) proof fn lemma_count_bits_agree(a: u32, b: u32, n: nat)
    requires
        n <= 32,
        forall|j: u32| j < n ==> bit(a, j) == bit(b, j),
    ensures
        count_bits_below(a, n) == count_bits_below(b, n),
    decreases n,
{
    if n > 0 {
        lemma_count_bits_agree(a, b, (n - 1) as nat);
        assert(bit(a, (n - 1) as u32) == bit(b, (n - 1) as u32));
    }
}

/// A set bit below `m` counts among the set bits below any larger bound.
pub(crate) proof fn lemma_count_bits_below_bit(x: u32, j: nat, n: nat)
    requires
        j < n <= 32,
        bit(x, j as u32),
    ensures
        count_bits_below(x, j) < count_bits_below(x, n),
    decreases n,
{
    if n > j + 1 {
        lemma_count_bits_below_bit(x, j, (n - 1) as nat);
    }
}

pub(crate) proof fn lemma_count_bits_le(x: u32, n: nat)
    ensures
        count_bits_below(x, n) <= n,
    decreases n,
{
    if n > 0 {
        lemma_count_bits_le(x, (n - 1) as nat);
    }
}

pub(crate) proof fn lemma_rank_below_count(w: u32, i: u32)
    requires
        i < 8,
        spec_has_child(w, i),
    ensures
        child_rank(w, i) < child_count(w),
{
    assert(bit(child_byte(w), i) == spec_has_child(w, i)) by (bit_vector)
        requires
            i < 8,
    ;
    lemma_count_bits_below_bit(child_byte(w), i as nat, 8);
}

} // verus!

verus! {

/// The marker of a node whose eight children are not all the same.
pub const BRANCH_MARKER: u32 = 0xFFFF_FFFF;

/// The marker of empty space.
pub const AIR_MARKER: u32 = 0;

/// Number of voxels along each axis of a node of the given level: level 0 is
/// the whole 32-wide chunk, level 5 a single voxel.
pub open spec fn region_size(level: int) -> int {
    if level <= 0 {
        32
    } else if level == 1 {
        16
    } else if level == 2 {
        8
    } else if level == 3 {
        4
    } else if level == 4 {
        2
    } else {
        1
    }
}

/// Number of nodes of the given level along each axis.
pub open spec fn level_volume(level: int) -> int {
    if level <= 0 {
        1
    } else if level == 1 {
        2
    } else if level == 2 {
        4
    } else if level == 3 {
        8
    } else if level == 4 {
        16
    } else {
        32
    }
}

/// Whether the voxel (x, y, z) lies in the region of the node (px, py, pz) of
/// the given level.
pub open spec fn in_region(level: int, px: int, py: int, pz: int, x: int, y: int, z: int) -> bool {
    let s = region_size(level);
    &&& 0 <= x < 32 && 0 <= y < 32 && 0 <= z < 32
    &&& x / s == px && y / s == py && z / s == pz
}

/// Which of the eight children (0..8, bit 0 = x, bit 1 = y, bit 2 = z) of a
/// node of the given level holds the voxel (x, y, z).
pub open spec fn octant(level: int, x: int, y: int, z: int) -> u32 {
    let s = region_size(level + 1);
    ((x / s) % 2 + 2 * ((y / s) % 2) + 4 * ((z / s) % 2)) as u32
}

/// The material that the sparse voxel octree `svo` gives at the voxel
/// (x, y, z), starting from the node word `word` of the given level: it
/// descends through the existing children and stops at a leaf; a missing
/// child, or a pointer beyond the data, is air.
pub open spec fn svo_lookup(svo: Seq<u32>, word: u32, level: nat, x: int, y: int, z: int) -> u32
    decreases 5 - level,
{
    if level >= 5 {
        AIR_MARKER
    } else {
        let i = octant(level as int, x, y, z);
        if !spec_has_child(word, i) {
            AIR_MARKER
        } else {
            let idx = (word & 0xFFFFu32) + child_rank(word, i);
            if idx >= svo.len() {
                AIR_MARKER
            } else if spec_is_leaf(word, i) {
                svo[idx]
            } else {
                svo_lookup(svo, svo[idx], (level + 1) as nat, x, y, z)
            }
        }
    }
}

/// The material that a chunk's octree gives at its local voxel (x, y, z); the
/// root word is the first element.
pub open spec fn svo_voxel(svo: Seq<u32>, x: int, y: int, z: int) -> u32 {
    if svo.len() == 0 {
        AIR_MARKER
    } else {
        svo_lookup(svo, svo[0], 0, x, y, z)
    }
}

} // verus!

verus! {

/// A 32x32x32 chunk compressed into a sparse voxel octree.
///
/// Every node word is `0xCCLLOOOO`: the first 8 bits say which of the eight
/// children (Z-order) exist, the second 8 bits which of them are leaves, and
/// the last 16 bits point at the first child; the children of a node are
/// stored consecutively. A leaf child slot holds its material.
pub struct Chunk {
    pub data: Vec<u32>,
    /// Bottom, left, near corner (the minimum position), in voxels.
    pub min_pos: V3i,
    /// Top, right, far corner (the maximum position), in voxels.
    pub max_pos: V3i,
}

/// A 32x32x32 chunk stored voxel by voxel, without an octree.
pub struct FlatChunk {
    pub data: Vec<u32>,
    /// Bottom, left, near corner (the minimum position), in voxels.
    pub min_pos: V3i,
    /// Top, right, far corner (the maximum position), in voxels.
    pub max_pos: V3i,
}

} // verus!
