use vstd::prelude::*;

use crate::octree::{
    bit, child_byte, child_count, child_rank, count_bits_below, in_region, lemma_count_bits_agree,
    lemma_count_bits_below_bit, lemma_count_bits_le, lemma_or_bit, lemma_rank_below_count,
    lemma_small_mask_bits, level_volume, octant, region_size, svo_lookup, svo_voxel,
    spec_has_child, spec_is_leaf, AIR_MARKER, BRANCH_MARKER,
};
use crate::chunk_map::{has_key, keys_distinct, ChunkMap};
use crate::merge::{child_slot, chunk_tree_ok, eight_equal_leaves, lemma_count_full, node_in, node_ptr};
use crate::octree::Chunk;
use crate::vecmath::V3i;

use std::collections::VecDeque;

verus! {

/// Width (in voxels) of a cubic chunk.
pub const CHUNK_WIDTH: i32 = 32;

/// Number of voxels in a chunk.
pub const CHUNK_VOLUME: usize = 32768;

/// Index of a local voxel in the flat layout of a chunk.
pub open spec fn local_index(x: int, y: int, z: int) -> int {
    x + 32 * y + 1024 * z
}

pub open spec fn in_local(x: int, y: int, z: int) -> bool {
    0 <= x < 32 && 0 <= y < 32 && 0 <= z < 32
}

/// Width of a grid: the number of planes along x.
pub open spec fn grid_width(data: Seq<Vec<Vec<u32>>>) -> int {
    data.len() as int
}

/// Height of a grid: the number of rows of its first plane.
pub open spec fn grid_height(data: Seq<Vec<Vec<u32>>>) -> int {
    if data.len() > 0 { data[0]@.len() as int } else { 0 }
}

/// Depth of a grid: the length of the first row of its first plane.
pub open spec fn grid_depth(data: Seq<Vec<Vec<u32>>>) -> int {
    if grid_height(data) > 0 { data[0]@[0]@.len() as int } else { 0 }
}

/// Whether a global voxel position lies inside the grid's extent.
pub open spec fn in_grid(data: Seq<Vec<Vec<u32>>>, x: int, y: int, z: int) -> bool {
    x < grid_width(data) && y < grid_height(data) && z < grid_depth(data)
}

/// The global position of local voxel `l` of chunk `c`, along one axis.
pub open spec fn global_coord(c: i32, l: int) -> int {
    c * 32 + l
}

/// The material that the grid holds at local voxel (lx, ly, lz) of chunk `c`;
/// air (0) where that voxel lies beyond the grid.
pub open spec fn chunk_voxel(data: Seq<Vec<Vec<u32>>>, c: V3i, lx: int, ly: int, lz: int) -> u32 {
    let gx = global_coord(c.x, lx);
    let gy = global_coord(c.y, ly);
    let gz = global_coord(c.z, lz);
    if in_grid(data, gx, gy, gz) {
        data[gx]@[gy]@[gz]
    } else {
        0
    }
}

/// The chunk coordinates are small enough for the global voxel positions of
/// the chunk to fit in an `i32`.
pub open spec fn chunk_pos_in_range(c: V3i) -> bool {
    &&& -67108864 <= c.x <= 67108863
    &&& -67108864 <= c.y <= 67108863
    &&& -67108864 <= c.z <= 67108863
}

/// Every voxel of the chunk that lies inside the grid's extent can be read:
/// its position is not negative and its row is long enough.
pub open spec fn chunk_reads_ok(data: Seq<Vec<Vec<u32>>>, c: V3i) -> bool {
    forall|lx: int, ly: int, lz: int|
        #![trigger chunk_voxel(data, c, lx, ly, lz)]
        in_local(lx, ly, lz) && in_grid(
            data,
            global_coord(c.x, lx),
            global_coord(c.y, ly),
            global_coord(c.z, lz),
        ) ==> {
            let gx = global_coord(c.x, lx);
            let gy = global_coord(c.y, ly);
            let gz = global_coord(c.z, lz);
            &&& 0 <= gx && 0 <= gy && 0 <= gz
            &&& gy < data[gx]@.len()
            &&& gz < data[gx]@[gy]@.len()
        }
}

/// The grid's extent fits in `i32`.
pub open spec fn grid_dims_fit(data: Seq<Vec<Vec<u32>>>) -> bool {
    &&& grid_width(data) <= i32::MAX
    &&& grid_height(data) <= i32::MAX
    &&& grid_depth(data) <= i32::MAX
}

proof fn lemma_local_index_injective(x: int, y: int, z: int, a: int, b: int, c: int)
    requires
        in_local(x, y, z),
        in_local(a, b, c),
        local_index(x, y, z) == local_index(a, b, c),
    ensures
        x == a && y == b && z == c,
{
}

/// The voxels of chunk `chunk_pos` (a 32x32x32 block of the grid `data`,
/// indexed `data[x][y][z]`) in the flat layout `x + 32 y + 1024 z`, or `None`
/// when all of them are air.
#[verifier::spinoff_prover]
pub fn extract_hot_chunk(data: &[Vec<Vec<u32>>], chunk_pos: &V3i) -> (r: Option<Vec<u32>>)
    requires
        grid_dims_fit(data@),
        chunk_pos_in_range(*chunk_pos),
        chunk_reads_ok(data@, *chunk_pos),
    ensures
        r is None <==> forall|lx: int, ly: int, lz: int|
            in_local(lx, ly, lz) ==> #[trigger] chunk_voxel(data@, *chunk_pos, lx, ly, lz) == 0,
        r matches Some(v) ==> {
            &&& v@.len() == 32768
            &&& forall|lx: int, ly: int, lz: int|
                in_local(lx, ly, lz) ==> v@[local_index(lx, ly, lz)] == #[trigger] chunk_voxel(
                    data@,
                    *chunk_pos,
                    lx,
                    ly,
                    lz,
                )
        },
{
    let width = data.len() as i32;
    let height = if width > 0 {
        data[0].len() as i32
    } else {
        0
    };
    let depth = if height > 0 {
        data[0][0].len() as i32
    } else {
        0
    };
    assert(width == grid_width(data@) && height == grid_height(data@) && depth == grid_depth(
        data@,
    ));

    let mut flat_data = vec![0_u32; 32768];
    let mut is_empty = true;

    let ghost d = data@;
    let ghost c = *chunk_pos;

    for lx in 0..32
        invariant
            width == grid_width(d),
            height == grid_height(d),
            depth == grid_depth(d),
            d == data@,
            c == *chunk_pos,
            chunk_pos_in_range(c),
            chunk_reads_ok(d, c),
            flat_data@.len() == 32768,
            forall|x: int, y: int, z: int|
                in_local(x, y, z) ==> #[trigger] flat_data@[local_index(x, y, z)] == if x < lx {
                    chunk_voxel(d, c, x, y, z)
                } else {
                    0
                },
            is_empty <==> forall|x: int, y: int, z: int|
                in_local(x, y, z) && x < lx ==> #[trigger] chunk_voxel(d, c, x, y, z) == 0,
    {
        for ly in 0..32
            invariant
                0 <= lx < 32,
                width == grid_width(d),
                height == grid_height(d),
                depth == grid_depth(d),
                d == data@,
                c == *chunk_pos,
                chunk_pos_in_range(c),
                chunk_reads_ok(d, c),
                flat_data@.len() == 32768,
                forall|x: int, y: int, z: int|
                    in_local(x, y, z) ==> #[trigger] flat_data@[local_index(x, y, z)] == if x < lx
                        || (x == lx && y < ly) {
                        chunk_voxel(d, c, x, y, z)
                    } else {
                        0
                    },
                is_empty <==> forall|x: int, y: int, z: int|
                    in_local(x, y, z) && (x < lx || (x == lx && y < ly)) ==> #[trigger] chunk_voxel(
                        d,
                        c,
                        x,
                        y,
                        z,
                    ) == 0,
        {
            for lz in 0..32
                invariant
                    0 <= lx < 32,
                    0 <= ly < 32,
                    width == grid_width(d),
                    height == grid_height(d),
                    depth == grid_depth(d),
                    d == data@,
                    c == *chunk_pos,
                    chunk_pos_in_range(c),
                    chunk_reads_ok(d, c),
                    flat_data@.len() == 32768,
                    forall|x: int, y: int, z: int|
                        in_local(x, y, z) ==> #[trigger] flat_data@[local_index(x, y, z)] == if x
                            < lx || (x == lx && y < ly) || (x == lx && y == ly && z < lz) {
                            chunk_voxel(d, c, x, y, z)
                        } else {
                            0
                        },
                    is_empty <==> forall|x: int, y: int, z: int|
                        in_local(x, y, z) && (x < lx || (x == lx && y < ly) || (x == lx && y == ly
                            && z < lz)) ==> #[trigger] chunk_voxel(d, c, x, y, z) == 0,
            {
                let local_pos = V3i { x: lx, y: ly, z: lz };

                let global_pos = V3i {
                    x: (chunk_pos.x * 32) + local_pos.x,
                    y: (chunk_pos.y * 32) + local_pos.y,
                    z: (chunk_pos.z * 32) + local_pos.z,
                };

                let ghost before = flat_data@;
                let ghost cv = chunk_voxel(d, c, lx as int, ly as int, lz as int);

                let outside = global_pos.x >= width || global_pos.y >= height || global_pos.z
                    >= depth;
                if !outside {
                    let voxel =
                        data[global_pos.x as usize][global_pos.y as usize][global_pos.z as usize];
                    if voxel != 0 {
                        is_empty = false;
                        let idx = local_pos.x + (local_pos.y * 32) + (local_pos.z * 1024);
                        flat_data[idx as usize] = voxel;
                    }
                }
                proof {
                    assert forall|x: int, y: int, z: int| in_local(x, y, z) implies #[trigger] flat_data@[
                        local_index(x, y, z)] == if x < lx || (x == lx && y < ly) || (x == lx && y
                        == ly && z < lz + 1) {
                        chunk_voxel(d, c, x, y, z)
                    } else {
                        0
                    } by {
                        let i = local_index(x, y, z);
                        let k = local_index(lx as int, ly as int, lz as int);
                        if x == lx && y == ly && z == lz {
                        } else {
                            if i == k {
                                lemma_local_index_injective(x, y, z, lx as int, ly as int, lz as int);
                            }
                            assert(flat_data@[i] == before[i]);
                        }
                    }
                }
            }
        }
    }

    if is_empty {
        None
    } else {
        Some(flat_data)
    }
}

} // verus!

verus! {

/// Index of node (x, y, z) in the flat layout of a level of the pyramid.
pub open spec fn level_index(level: int, x: int, y: int, z: int) -> int {
    x + y * level_volume(level) + z * level_volume(level) * level_volume(level)
}

/// Whether (x, y, z) names a node of the given level.
pub open spec fn in_level(level: int, x: int, y: int, z: int) -> bool {
    let v = level_volume(level);
    0 <= x < v && 0 <= y < v && 0 <= z < v
}

/// The value of a node of the mipmap pyramid built over the 32x32x32 voxels
/// `flat`: at level 5 the voxel itself; above, the common value of the eight
/// children when they are all equal and none is a branch, else the branch
/// marker.
pub open spec fn node_value(flat: Seq<u32>, level: nat, x: int, y: int, z: int) -> u32
    decreases 5 - level, 1nat,
{
    if level >= 5 {
        flat[local_index(x, y, z)]
    } else {
        let c0 = child_value(flat, level, x, y, z, 0);
        if c0 != BRANCH_MARKER && c0 == child_value(flat, level, x, y, z, 1) && c0 == child_value(
            flat,
            level,
            x,
            y,
            z,
            2,
        ) && c0 == child_value(flat, level, x, y, z, 3) && c0 == child_value(
            flat,
            level,
            x,
            y,
            z,
            4,
        ) && c0 == child_value(flat, level, x, y, z, 5) && c0 == child_value(
            flat,
            level,
            x,
            y,
            z,
            6,
        ) && c0 == child_value(flat, level, x, y, z, 7) {
            c0
        } else {
            BRANCH_MARKER
        }
    }
}

/// The value of child `i` (bit 0 = x, bit 1 = y, bit 2 = z) of a node.
pub open spec fn child_value(flat: Seq<u32>, level: nat, x: int, y: int, z: int, i: int) -> u32
    decreases 5 - level, 0nat,
{
    if level >= 5 {
        AIR_MARKER
    } else {
        node_value(flat, (level + 1) as nat, 2 * x + i % 2, 2 * y + (i / 2) % 2, 2 * z + i / 4)
    }
}

/// Level `level` of the pyramid holds the node values of that level.
pub open spec fn level_built(pyramid: Seq<Vec<u32>>, flat: Seq<u32>, level: int) -> bool {
    &&& pyramid[level]@.len() >= level_volume(level) * level_volume(level) * level_volume(level)
    &&& forall|x: int, y: int, z: int|
        in_level(level, x, y, z) ==> pyramid[level]@[#[trigger] level_index(level, x, y, z)]
            == node_value(flat, level as nat, x, y, z)
}

proof fn lemma_level_index_bounds(level: int, x: int, y: int, z: int)
    requires
        0 <= level <= 5,
        in_level(level, x, y, z),
    ensures
        0 <= level_index(level, x, y, z) < level_volume(level) * level_volume(level)
            * level_volume(level),
        level_volume(level) * level_volume(level) * level_volume(level) <= 32768,
        0 <= y * level_volume(level) <= 1024,
        0 <= z * level_volume(level) <= 1024,
        0 <= z * level_volume(level) * level_volume(level) <= 32768,
{
    if level == 0 {
    } else if level == 1 {
    } else if level == 2 {
    } else if level == 3 {
    } else if level == 4 {
    } else {
    }
}

proof fn lemma_level_index_injective(
    level: int,
    x: int,
    y: int,
    z: int,
    a: int,
    b: int,
    c: int,
)
    requires
        0 <= level <= 5,
        in_level(level, x, y, z),
        in_level(level, a, b, c),
        level_index(level, x, y, z) == level_index(level, a, b, c),
    ensures
        x == a && y == b && z == c,
{
    if level == 0 {
    } else if level == 1 {
    } else if level == 2 {
    } else if level == 3 {
    } else if level == 4 {
    } else {
    }
}

proof fn lemma_child_bits(i: i32)
    requires
        0 <= i < 8,
    ensures
        (i & 1) == i % 2,
        ((i >> 1) & 1) == (i / 2) % 2,
        ((i >> 2) & 1) == i / 4,
{
    assert((i & 1) == i % 2) by (bit_vector)
        requires
            0 <= i < 8,
    ;
    assert(((i >> 1) & 1) == (i / 2) % 2) by (bit_vector)
        requires
            0 <= i < 8,
    ;
    assert(((i >> 2) & 1) == i / 4) by (bit_vector)
        requires
            0 <= i < 8,
    ;
}

/// The cell of the node (x, y, z) in level `level` of the pyramid, whose
/// rows are `v` cells long.
pub open spec fn cell(pyramid: Seq<Vec<u32>>, level: int, v: int, x: int, y: int, z: int) -> u32 {
    pyramid[level]@[x + y * v + z * v * v]
}

/// Where (x, y, z) and its level's rows are `v` long, the cell's index is
/// below `v` cubed, and so are the products that make it up.
proof fn lemma_index_bounds(v: int, x: int, y: int, z: int)
    requires
        0 <= x < v,
        0 <= y < v,
        0 <= z < v,
    ensures
        0 <= y * v < v * v,
        0 <= z * v < v * v,
        v * v <= v * v * v,
        0 <= z * v * v < v * v * v,
        0 <= x + y * v + z * v * v < v * v * v,
{
    assert(0 <= y * v < v * v) by (nonlinear_arith)
        requires
            0 <= y < v,
    ;
    assert(0 <= z * v < v * v) by (nonlinear_arith)
        requires
            0 <= z < v,
    ;
    assert(v * v <= v * v * v) by (nonlinear_arith)
        requires
            1 <= v,
    ;
    assert(0 <= z * v * v <= (v - 1) * v * v) by (nonlinear_arith)
        requires
            0 <= z < v,
    ;
    assert((v - 1) * v * v == v * v * v - v * v) by (nonlinear_arith);
    assert(x + y * v <= (v - 1) + (v - 1) * v) by (nonlinear_arith)
        requires
            0 <= x < v,
            0 <= y < v,
    ;
    assert((v - 1) + (v - 1) * v == v * v - 1) by (nonlinear_arith);
}

/// The cell of child `i` (bit 0 = x, bit 1 = y, bit 2 = z) of the node
/// (x, y, z) of level `level`, in the level below, whose rows are `v` long.
pub open spec fn child_cell(pyramid: Seq<Vec<u32>>, level: int, v: int, x: int, y: int, z: int, i: int) -> u32 {
    cell(pyramid, level + 1, v, 2 * x + i % 2, 2 * y + (i / 2) % 2, 2 * z + i / 4)
}

/// What a node is pruned to from the cells of its eight children: their
/// common value where all eight agree and it is not the branch marker, else
/// the branch marker. The level below has rows `v` long.
pub open spec fn pruned_cell_value(pyramid: Seq<Vec<u32>>, level: int, v: int, x: int, y: int, z: int) -> u32 {
    let c0 = child_cell(pyramid, level, v, x, y, z, 0);
    if c0 != BRANCH_MARKER && c0 == child_cell(pyramid, level, v, x, y, z, 1) && c0 == child_cell(
        pyramid,
        level,
        v,
        x,
        y,
        z,
        2,
    ) && c0 == child_cell(pyramid, level, v, x, y, z, 3) && c0 == child_cell(pyramid, level, v, x, y, z, 4)
        && c0 == child_cell(pyramid, level, v, x, y, z, 5) && c0 == child_cell(pyramid, level, v, x, y, z, 6)
        && c0 == child_cell(pyramid, level, v, x, y, z, 7) {
        c0
    } else {
        BRANCH_MARKER
    }
}

/// Where the level below is built from the voxels, the cells of a node's
/// children are their node values, and pruning the cells gives the node's
/// value.
proof fn lemma_cells_are_values(pyramid: Seq<Vec<u32>>, level: int, x: int, y: int, z: int)
    requires
        0 <= level < 5,
        in_level(level, x, y, z),
        level_built(pyramid, pyramid[5]@, level + 1),
    ensures
        forall|i: int|
            0 <= i < 8 ==> #[trigger] child_cell(pyramid, level, level_volume(level + 1), x, y, z, i) == child_value(
                pyramid[5]@,
                level as nat,
                x,
                y,
                z,
                i,
            ),
        pruned_cell_value(pyramid, level, level_volume(level + 1), x, y, z) == node_value(pyramid[5]@, level as nat, x, y, z),
{
    let flat = pyramid[5]@;
    assert forall|i: int| 0 <= i < 8 implies #[trigger] child_cell(pyramid, level, level_volume(level + 1), x, y, z, i) == child_value(
        flat,
        level as nat,
        x,
        y,
        z,
        i,
    ) by {
        assert(level_volume(level + 1) == 2 * level_volume(level));
        assert(in_level(level + 1, 2 * x + i % 2, 2 * y + (i / 2) % 2, 2 * z + i / 4));
        let cx = 2 * x + i % 2;
        let cy = 2 * y + (i / 2) % 2;
        let cz = 2 * z + i / 4;
        assert(child_cell(pyramid, level, level_volume(level + 1), x, y, z, i)
            == pyramid[level + 1]@[level_index(level + 1, cx, cy, cz)]);
    }
    assert(child_cell(pyramid, level, level_volume(level + 1), x, y, z, 0) == child_value(flat, level as nat, x, y, z, 0));
    assert(child_cell(pyramid, level, level_volume(level + 1), x, y, z, 1) == child_value(flat, level as nat, x, y, z, 1));
    assert(child_cell(pyramid, level, level_volume(level + 1), x, y, z, 2) == child_value(flat, level as nat, x, y, z, 2));
    assert(child_cell(pyramid, level, level_volume(level + 1), x, y, z, 3) == child_value(flat, level as nat, x, y, z, 3));
    assert(child_cell(pyramid, level, level_volume(level + 1), x, y, z, 4) == child_value(flat, level as nat, x, y, z, 4));
    assert(child_cell(pyramid, level, level_volume(level + 1), x, y, z, 5) == child_value(flat, level as nat, x, y, z, 5));
    assert(child_cell(pyramid, level, level_volume(level + 1), x, y, z, 6) == child_value(flat, level as nat, x, y, z, 6));
    assert(child_cell(pyramid, level, level_volume(level + 1), x, y, z, 7) == child_value(flat, level as nat, x, y, z, 7));
}

/// Checks the 8 children of a parent node.
/// Returns their payload if they are identical, or the branch marker if they differ.
#[verifier::spinoff_prover]
fn check_if_prunable(
    pyramid: &[Vec<u32>; 6],
    child_level: usize,
    child_volume: i32,
    parent_pos: &V3i,
) -> (r: u32)
    requires
        1 <= child_level <= 5,
        child_volume * child_volume * child_volume <= i32::MAX,
        0 <= parent_pos.x && 2 * parent_pos.x + 1 < child_volume,
        0 <= parent_pos.y && 2 * parent_pos.y + 1 < child_volume,
        0 <= parent_pos.z && 2 * parent_pos.z + 1 < child_volume,
        pyramid@[child_level as int]@.len() >= child_volume * child_volume * child_volume,
    ensures
        r == pruned_cell_value(
            pyramid@,
            child_level - 1,
            child_volume as int,
            parent_pos.x as int,
            parent_pos.y as int,
            parent_pos.z as int,
        ),
        child_volume == level_volume(child_level as int) && level_built(pyramid@, pyramid@[5]@, child_level as int)
            ==> r == node_value(
            pyramid@[5]@,
            (child_level - 1) as nat,
            parent_pos.x as int,
            parent_pos.y as int,
            parent_pos.z as int,
        ),
{
    let ghost flat = pyramid@[5]@;
    let ghost pl = (child_level - 1) as nat;
    let ghost px = parent_pos.x as int;
    let ghost py = parent_pos.y as int;
    let ghost pz = parent_pos.z as int;
    let mut first_val: Option<u32> = None;
    proof {
        if child_volume == level_volume(child_level as int) && level_built(pyramid@, flat, child_level as int) {
            lemma_cells_are_values(pyramid@, pl as int, px, py, pz);
        }
    }

    for i in 0..8
        invariant
            1 <= child_level <= 5,
            child_volume * child_volume * child_volume <= i32::MAX,
            0 <= px && 2 * px + 1 < child_volume,
            0 <= py && 2 * py + 1 < child_volume,
            0 <= pz && 2 * pz + 1 < child_volume,
            pl + 1 == child_level,
            px == parent_pos.x && py == parent_pos.y && pz == parent_pos.z,
            flat == pyramid@[5]@,
            pyramid@[child_level as int]@.len() >= child_volume * child_volume * child_volume,
            child_volume == level_volume(child_level as int) && level_built(pyramid@, flat, child_level as int)
                ==> pruned_cell_value(pyramid@, pl as int, child_volume as int, px, py, pz)
                == node_value(flat, pl, px, py, pz),
            i == 0 <==> first_val is None,
            first_val matches Some(f) ==> {
                &&& f != BRANCH_MARKER
                &&& f == child_cell(pyramid@, pl as int, child_volume as int, px, py, pz, 0)
                &&& forall|j: int| 0 <= j < i ==> #[trigger] child_cell(pyramid@, pl as int, child_volume as int, px, py, pz, j) == f
            },
    {
        proof {
            lemma_child_bits(i);
        }
        let child_pos = V3i {
            x: (parent_pos.x * 2) + (i & 1),
            y: (parent_pos.y * 2) + ((i >> 1) & 1),
            z: (parent_pos.z * 2) + ((i >> 2) & 1),
        };
        proof {
            lemma_index_bounds(
                child_volume as int,
                child_pos.x as int,
                child_pos.y as int,
                child_pos.z as int,
            );
        }
        let child_idx = child_pos.x + (child_pos.y * child_volume) + (child_pos.z * child_volume
            * child_volume);
        let val = pyramid[child_level][child_idx as usize];
        assert(val == child_cell(pyramid@, pl as int, child_volume as int, px, py, pz, i as int));

        if val == BRANCH_MARKER {
            return BRANCH_MARKER;
        }
        if let Some(first) = first_val {
            if first != val {
                return BRANCH_MARKER;
            }
        } else {
            first_val = Some(val);
        }
    }
    proof {
        let f = first_val.unwrap();
        assert(child_cell(pyramid@, pl as int, child_volume as int, px, py, pz, 1) == f);
        assert(child_cell(pyramid@, pl as int, child_volume as int, px, py, pz, 2) == f);
        assert(child_cell(pyramid@, pl as int, child_volume as int, px, py, pz, 3) == f);
        assert(child_cell(pyramid@, pl as int, child_volume as int, px, py, pz, 4) == f);
        assert(child_cell(pyramid@, pl as int, child_volume as int, px, py, pz, 5) == f);
        assert(child_cell(pyramid@, pl as int, child_volume as int, px, py, pz, 6) == f);
        assert(child_cell(pyramid@, pl as int, child_volume as int, px, py, pz, 7) == f);
        assert(pruned_cell_value(pyramid@, pl as int, child_volume as int, px, py, pz) == f);
    }
    first_val.unwrap_or(AIR_MARKER)
}

} // verus!

verus! {

/// The volumes of the six levels of the pyramid.
pub open spec fn volumes_ok(volumes: Seq<i32>) -> bool {
    volumes == seq![1i32, 2i32, 4i32, 8i32, 16i32, 32i32]
}

/// Levels 0..4 of the pyramid hold at least as many cells as their volumes
/// give, and level 5 holds a full chunk.
pub open spec fn pyramid_shape(pyramid: Seq<Vec<u32>>) -> bool {
    &&& pyramid.len() == 6
    &&& forall|l: int|
        0 <= l < 5 ==> #[trigger] pyramid[l]@.len() >= level_volume(l) * level_volume(l)
            * level_volume(l)
    &&& pyramid[5]@.len() >= 32768
}

/// Node (a, b, c) comes before node (x, y, z) in the z-major scan order.
pub open spec fn scanned_before(a: int, b: int, c: int, x: int, y: int, z: int) -> bool {
    c < z || (c == z && b < y) || (c == z && b == y && a < x)
}

/// Writes one node value into one level of the pyramid.
fn set_pyramid_value(pyramid: &mut [Vec<u32>; 6], level: usize, idx: usize, value: u32)
    requires
        level < 6,
        idx < old(pyramid)@[level as int]@.len(),
    ensures
        final(pyramid)@.len() == 6,
        final(pyramid)@[level as int]@ == old(pyramid)@[level as int]@.update(idx as int, value),
        forall|l: int| 0 <= l < 6 && l != level ==> final(pyramid)@[l] == old(pyramid)@[l],
{
    pyramid[level][idx] = value;
}

/// Compresses the pyramid from the bottom up: each node of levels 4 down to 0
/// receives the pruned value of its eight children.
#[verifier::spinoff_prover]
fn build_mipmap_pyramid(pyramid: &mut [Vec<u32>; 6], volumes: &[i32; 6])
    requires
        volumes_ok(volumes@),
        pyramid_shape(old(pyramid)@),
    ensures
        pyramid_shape(final(pyramid)@),
        final(pyramid)@[5]@ == old(pyramid)@[5]@,
        forall|l: int| 0 <= l < 6 ==> #[trigger] final(pyramid)@[l]@.len() == old(pyramid)@[l]@.len(),
        forall|l: int, k: int|
            0 <= l < 5 && level_volume(l) * level_volume(l) * level_volume(l) <= k < final(pyramid)@[l]@.len()
                ==> #[trigger] final(pyramid)@[l]@[k] == old(pyramid)@[l]@[k],
        forall|l: int| 0 <= l <= 5 ==> level_built(final(pyramid)@, old(pyramid)@[5]@, l),
{
    let ghost flat = pyramid@[5]@;
    assert forall|x: int, y: int, z: int| in_level(5, x, y, z) implies pyramid@[5]@[
        #[trigger] level_index(5, x, y, z)] == node_value(flat, 5, x, y, z) by {}
    assert(pyramid@[5]@.len() >= level_volume(5) * level_volume(5) * level_volume(5));
    assert(level_built(pyramid@, flat, 5));
    assert forall|l: int| 5 <= l <= 5 implies level_built(pyramid@, flat, l) by {
        assert(l == 5);
    }
    let mut level: usize = 5;
    while level > 0
        invariant
            level <= 5,
            volumes_ok(volumes@),
            pyramid_shape(pyramid@),
            pyramid@[5]@ == flat,
            forall|l: int| 0 <= l < 6 ==> #[trigger] pyramid@[l]@.len() == old(pyramid)@[l]@.len(),
            forall|l: int, k: int|
                0 <= l < 5 && level_volume(l) * level_volume(l) * level_volume(l) <= k < pyramid@[l]@.len()
                    ==> #[trigger] pyramid@[l]@[k] == old(pyramid)@[l]@[k],
            forall|l: int| level <= l <= 5 ==> level_built(pyramid@, flat, l),
        decreases level,
    {
        level = level - 1;
        let current_volume = volumes[level];
        let child_volume = volumes[level + 1];
        let child_level = level + 1;
        assert(current_volume == level_volume(level as int));
        assert(child_volume == level_volume(child_level as int));

        for z in 0..current_volume
            invariant
                level < 5,
                child_level == level + 1,
                current_volume == level_volume(level as int),
                child_volume == level_volume(child_level as int),
                volumes_ok(volumes@),
                pyramid_shape(pyramid@),
                pyramid@[5]@ == flat,
                forall|l: int| 0 <= l < 6 ==> #[trigger] pyramid@[l]@.len() == old(pyramid)@[l]@.len(),
                forall|l: int, k: int|
                    0 <= l < 5 && level_volume(l) * level_volume(l) * level_volume(l) <= k < pyramid@[l]@.len()
                        ==> #[trigger] pyramid@[l]@[k] == old(pyramid)@[l]@[k],
                forall|l: int| level < l <= 5 ==> level_built(pyramid@, flat, l),
                forall|a: int, b: int, c: int|
                    in_level(level as int, a, b, c) && c < z ==> pyramid@[level as int]@[
                        #[trigger] level_index(level as int, a, b, c)] == node_value(
                        flat,
                        level as nat,
                        a,
                        b,
                        c,
                    ),
        {
            for y in 0..current_volume
                invariant
                    level < 5,
                    child_level == level + 1,
                    current_volume == level_volume(level as int),
                    child_volume == level_volume(child_level as int),
                    0 <= z < current_volume,
                    volumes_ok(volumes@),
                    pyramid_shape(pyramid@),
                    pyramid@[5]@ == flat,
                    forall|l: int| 0 <= l < 6 ==> #[trigger] pyramid@[l]@.len() == old(pyramid)@[l]@.len(),
                    forall|l: int, k: int|
                        0 <= l < 5 && level_volume(l) * level_volume(l) * level_volume(l) <= k < pyramid@[l]@.len()
                            ==> #[trigger] pyramid@[l]@[k] == old(pyramid)@[l]@[k],
                    forall|l: int| level < l <= 5 ==> level_built(pyramid@, flat, l),
                    forall|a: int, b: int, c: int|
                        in_level(level as int, a, b, c) && (c < z || (c == z && b < y))
                            ==> pyramid@[level as int]@[#[trigger] level_index(
                            level as int,
                            a,
                            b,
                            c,
                        )] == node_value(flat, level as nat, a, b, c),
            {
                for x in 0..current_volume
                    invariant
                        level < 5,
                        child_level == level + 1,
                        current_volume == level_volume(level as int),
                        child_volume == level_volume(child_level as int),
                        0 <= z < current_volume,
                        0 <= y < current_volume,
                        volumes_ok(volumes@),
                        pyramid_shape(pyramid@),
                        pyramid@[5]@ == flat,
                        forall|l: int| 0 <= l < 6 ==> #[trigger] pyramid@[l]@.len() == old(pyramid)@[l]@.len(),
                        forall|l: int, k: int|
                            0 <= l < 5 && level_volume(l) * level_volume(l) * level_volume(l) <= k < pyramid@[l]@.len()
                                ==> #[trigger] pyramid@[l]@[k] == old(pyramid)@[l]@[k],
                        forall|l: int| level < l <= 5 ==> level_built(pyramid@, flat, l),
                        forall|a: int, b: int, c: int|
                            in_level(level as int, a, b, c) && scanned_before(a, b, c, x as int, y as int, z as int)
                                ==> pyramid@[level as int]@[#[trigger] level_index(
                                level as int,
                                a,
                                b,
                                c,
                            )] == node_value(flat, level as nat, a, b, c),
                {
                    let pos = V3i { x, y, z };

                    let pruned_value = check_if_prunable(pyramid, child_level, child_volume, &pos);

                    proof {
                        lemma_level_index_bounds(level as int, x as int, y as int, z as int);
                    }
                    let idx = pos.x + (pos.y * current_volume) + (pos.z * current_volume
                        * current_volume);
                    assert(idx as int == level_index(level as int, x as int, y as int, z as int));
                    let ghost before = pyramid@;
                    set_pyramid_value(pyramid, level, idx as usize, pruned_value);
                    proof {
                        assert forall|l: int, k: int|
                            0 <= l < 5 && level_volume(l) * level_volume(l) * level_volume(l) <= k
                                < pyramid@[l]@.len() implies #[trigger] pyramid@[l]@[k] == old(
                            pyramid,
                        )@[l]@[k] by {
                            assert(before[l]@[k] == old(pyramid)@[l]@[k]);
                        }
                        assert forall|l: int| level < l <= 5 implies level_built(
                            pyramid@,
                            flat,
                            l,
                        ) by {
                            assert(level_built(before, flat, l));
                            assert(pyramid@[l] == before[l]);
                        }
                        assert forall|a: int, b: int, c: int|
                            in_level(level as int, a, b, c) && scanned_before(
                                a,
                                b,
                                c,
                                x + 1,
                                y as int,
                                z as int,
                            ) implies pyramid@[level as int]@[#[trigger] level_index(
                            level as int,
                            a,
                            b,
                            c,
                        )] == node_value(flat, level as nat, a, b, c) by {
                            let i = level_index(level as int, a, b, c);
                            lemma_level_index_bounds(level as int, a, b, c);
                            let j = level_index(level as int, x as int, y as int, z as int);
                            if a == x && b == y && c == z {
                                assert(pyramid@[level as int]@[j] == pruned_value);
                            } else {
                                assert(scanned_before(a, b, c, x as int, y as int, z as int));
                                assert(before[level as int]@[i] == node_value(
                                    flat,
                                    level as nat,
                                    a,
                                    b,
                                    c,
                                ));
                                if i == j {
                                    lemma_level_index_injective(
                                        level as int,
                                        a,
                                        b,
                                        c,
                                        x as int,
                                        y as int,
                                        z as int,
                                    );
                                }
                                assert(pyramid@[level as int]@[i] == before[level as int]@[i]);
                            }
                        }
                    }
                }
            }
        }
    }
}

} // verus!

verus! {

/// A child found while serialising a node: a leaf with its payload, or a
/// branch to be serialised later.
struct SvoChild {
    is_leaf: bool,
    payload: u32,
    pos: V3i,
}

/// The position of child `i` of the node at (x, y, z).
pub open spec fn child_pos_spec(x: int, y: int, z: int, i: int) -> (int, int, int) {
    (2 * x + i % 2, 2 * y + (i / 2) % 2, 2 * z + i / 4)
}

/// What the scan over the children of the node (px, py, pz) of level `pl`
/// has found once it has looked at the first `n` children's cells: the
/// child and leaf masks, and the children that exist, in order.
spec fn scan_seen(
    pyramid: Seq<Vec<u32>>,
    pl: nat,
    v: int,
    px: int,
    py: int,
    pz: int,
    n: int,
    cm: u32,
    lm: u32,
    vc: Seq<SvoChild>,
) -> bool {
    forall|j: u32|
        j < n ==> {
            let cv = child_cell(pyramid, pl as int, v, px, py, pz, j as int);
            &&& #[trigger] bit(cm, j) == (cv != AIR_MARKER)
            &&& bit(lm, j) == (cv != AIR_MARKER && cv != BRANCH_MARKER)
            &&& cv != AIR_MARKER ==> {
                let c = vc[count_bits_below(cm, j as nat) as int];
                let p = child_pos_spec(px, py, pz, j as int);
                &&& c.payload == cv
                &&& c.is_leaf == (cv != BRANCH_MARKER)
                &&& c.pos.x == p.0 && c.pos.y == p.1 && c.pos.z == p.2
            }
        }
}

/// One step of the scan over the children of a node: child `iu`, whose value
/// is `val`, has been looked at.
#[verifier::spinoff_prover]
proof fn lemma_scan_step(
    pyramid: Seq<Vec<u32>>,
    pl: nat,
    v: int,
    px: int,
    py: int,
    pz: int,
    iu: u32,
    val: u32,
    old_cm: u32,
    old_lm: u32,
    child_mask: u32,
    leaf_mask: u32,
    old_vc: Seq<SvoChild>,
    valid_children: Seq<SvoChild>,
)
    requires
        iu < 8,
        val == child_cell(pyramid, pl as int, v, px, py, pz, iu as int),
        old_cm < (1u32 << iu),
        old_lm < (1u32 << iu),
        old_vc.len() == count_bits_below(old_cm, iu as nat),
        scan_seen(pyramid, pl, v, px, py, pz, iu as int, old_cm, old_lm, old_vc),
        child_mask == if val != AIR_MARKER {
            old_cm | (1u32 << iu)
        } else {
            old_cm
        },
        leaf_mask == if val != AIR_MARKER && val != BRANCH_MARKER {
            old_lm | (1u32 << iu)
        } else {
            old_lm
        },
        val == AIR_MARKER ==> valid_children == old_vc,
        val != AIR_MARKER ==> {
            let p = child_pos_spec(px, py, pz, iu as int);
            &&& valid_children.len() == old_vc.len() + 1
            &&& valid_children.drop_last() == old_vc
            &&& valid_children.last().payload == val
            &&& valid_children.last().is_leaf == (val != BRANCH_MARKER)
            &&& valid_children.last().pos.x == p.0
            &&& valid_children.last().pos.y == p.1
            &&& valid_children.last().pos.z == p.2
        },
    ensures
        child_mask < (1u32 << ((iu + 1) as u32)),
        leaf_mask < (1u32 << ((iu + 1) as u32)),
        valid_children.len() == count_bits_below(child_mask, (iu + 1) as nat),
        scan_seen(pyramid, pl, v, px, py, pz, iu + 1, child_mask, leaf_mask, valid_children),
{
    if val != AIR_MARKER {
        assert forall|k: int| 0 <= k < old_vc.len() implies valid_children[k] == old_vc[k] by {
            assert(valid_children.drop_last()[k] == valid_children[k]);
        }
    }
    assert forall|j: u32| j < 32 implies bit(child_mask, j) == (bit(old_cm, j) || (j == iu
        && val != AIR_MARKER)) by {
        if val != AIR_MARKER {
            lemma_or_bit(old_cm, iu, j);
        }
    }
    assert forall|j: u32| j < 32 implies bit(leaf_mask, j) == (bit(old_lm, j) || (j == iu
        && val != AIR_MARKER && val != BRANCH_MARKER)) by {
        if val != AIR_MARKER && val != BRANCH_MARKER {
            lemma_or_bit(old_lm, iu, j);
        }
    }
    lemma_count_bits_agree(child_mask, old_cm, iu as nat);
    assert forall|j: u32| iu <= j < 32 implies !bit(old_cm, j) by {
        lemma_small_mask_bits(old_cm, iu, j);
    }
    assert forall|j: u32| iu <= j < 32 implies !bit(old_lm, j) by {
        lemma_small_mask_bits(old_lm, iu, j);
    }
    assert(child_mask < (1u32 << ((iu + 1) as u32))) by (bit_vector)
        requires
            iu < 8,
            old_cm < (1u32 << iu),
            child_mask == old_cm || child_mask == old_cm | (1u32 << iu),
    ;
    assert(leaf_mask < (1u32 << ((iu + 1) as u32))) by (bit_vector)
        requires
            iu < 8,
            old_lm < (1u32 << iu),
            leaf_mask == old_lm || leaf_mask == old_lm | (1u32 << iu),
    ;
    assert forall|j: u32| j < iu implies count_bits_below(child_mask, j as nat)
        == count_bits_below(old_cm, j as nat) by {
        lemma_count_bits_agree(child_mask, old_cm, j as nat);
    }
    assert forall|j: u32| j < iu + 1 implies {
        let cv = child_cell(pyramid, pl as int, v, px, py, pz, j as int);
        &&& #[trigger] bit(child_mask, j) == (cv != AIR_MARKER)
        &&& bit(leaf_mask, j) == (cv != AIR_MARKER && cv != BRANCH_MARKER)
        &&& cv != AIR_MARKER ==> {
            let c = valid_children[count_bits_below(child_mask, j as nat) as int];
            let p = child_pos_spec(px, py, pz, j as int);
            &&& c.payload == cv
            &&& c.is_leaf == (cv != BRANCH_MARKER)
            &&& c.pos.x == p.0 && c.pos.y == p.1 && c.pos.z == p.2
        }
    } by {
        let cv = child_cell(pyramid, pl as int, v, px, py, pz, j as int);
        if j < iu {
            assert(bit(old_cm, j) == (cv != AIR_MARKER));
            if cv != AIR_MARKER {
                let k = count_bits_below(old_cm, j as nat) as int;
                assert(k < old_vc.len()) by {
                    lemma_count_bits_below_bit(old_cm, j as nat, iu as nat);
                }
                assert(valid_children[k] == old_vc[k]);
            }
        } else {
            assert(j == iu);
            assert(count_bits_below(child_mask, iu as nat) == old_vc.len());
            if cv != AIR_MARKER {
                assert(valid_children[old_vc.len() as int] == valid_children.last());
            }
        }
    }
    assert(scan_seen(pyramid, pl, v, px, py, pz, iu + 1, child_mask, leaf_mask, valid_children));
}

/// Inspects the 8 children, generates the SVO bitmasks, and collects the valid nodes.
#[verifier::spinoff_prover]
#[verifier::rlimit(60)]
fn scan_children_for_serialization(
    pyramid: &[Vec<u32>; 6],
    child_level: usize,
    child_volume: i32,
    parent_pos: &V3i,
) -> (r: (u32, u32, Vec<SvoChild>))
    requires
        1 <= child_level <= 5,
        child_volume * child_volume * child_volume <= i32::MAX,
        0 <= parent_pos.x && 2 * parent_pos.x + 1 < child_volume,
        0 <= parent_pos.y && 2 * parent_pos.y + 1 < child_volume,
        0 <= parent_pos.z && 2 * parent_pos.z + 1 < child_volume,
        pyramid@[child_level as int]@.len() >= child_volume * child_volume * child_volume,
    ensures
        r.0 < 256,
        r.1 < 256,
        r.2@.len() == count_bits_below(r.0, 8),
        scan_seen(
            pyramid@,
            (child_level - 1) as nat,
            child_volume as int,
            parent_pos.x as int,
            parent_pos.y as int,
            parent_pos.z as int,
            8,
            r.0,
            r.1,
            r.2@,
        ),
        forall|k: int|
            0 <= k < r.2@.len() ==> {
                let c = #[trigger] r.2@[k];
                &&& 0 <= c.pos.x < child_volume && 0 <= c.pos.y < child_volume && 0 <= c.pos.z < child_volume
                &&& c.payload == cell(
                    pyramid@,
                    child_level as int,
                    child_volume as int,
                    c.pos.x as int,
                    c.pos.y as int,
                    c.pos.z as int,
                )
                &&& c.payload != AIR_MARKER
                &&& c.is_leaf == (c.payload != BRANCH_MARKER)
            },
        child_volume == level_volume(child_level as int) && level_built(pyramid@, pyramid@[5]@, child_level as int)
            ==> forall|i: u32|
            i < 8 ==> {
                let cv = child_value(
                    pyramid@[5]@,
                    (child_level - 1) as nat,
                    parent_pos.x as int,
                    parent_pos.y as int,
                    parent_pos.z as int,
                    i as int,
                );
                &&& #[trigger] bit(r.0, i) == (cv != AIR_MARKER)
                &&& bit(r.1, i) == (cv != AIR_MARKER && cv != BRANCH_MARKER)
                &&& cv != AIR_MARKER ==> {
                    let c = r.2@[count_bits_below(r.0, i as nat) as int];
                    let p = child_pos_spec(
                        parent_pos.x as int,
                        parent_pos.y as int,
                        parent_pos.z as int,
                        i as int,
                    );
                    &&& c.payload == cv
                    &&& c.is_leaf == (cv != BRANCH_MARKER)
                    &&& c.pos.x == p.0 && c.pos.y == p.1 && c.pos.z == p.2
                }
            },
        child_volume == level_volume(child_level as int) && level_built(pyramid@, pyramid@[5]@, child_level as int)
            ==> forall|k: int|
            0 <= k < r.2@.len() ==> {
                let c = #[trigger] r.2@[k];
                &&& in_level(child_level as int, c.pos.x as int, c.pos.y as int, c.pos.z as int)
                &&& c.payload == node_value(
                    pyramid@[5]@,
                    child_level as nat,
                    c.pos.x as int,
                    c.pos.y as int,
                    c.pos.z as int,
                )
                &&& c.payload != AIR_MARKER
                &&& c.is_leaf == (c.payload != BRANCH_MARKER)
            },
{
    let ghost flat = pyramid@[5]@;
    let ghost pl = (child_level - 1) as nat;
    let ghost px = parent_pos.x as int;
    let ghost py = parent_pos.y as int;
    let ghost pz = parent_pos.z as int;
    let mut child_mask: u32 = 0;
    let mut leaf_mask: u32 = 0;
    let mut valid_children: Vec<SvoChild> = Vec::with_capacity(8);
    assert((1u32 << 0u32) == 1u32) by (bit_vector);

    let mut i: i32 = 0;
    while i < 8
        invariant
            0 <= i <= 8,
            1 <= child_level <= 5,
            child_volume * child_volume * child_volume <= i32::MAX,
            0 <= px && 2 * px + 1 < child_volume,
            0 <= py && 2 * py + 1 < child_volume,
            0 <= pz && 2 * pz + 1 < child_volume,
            pl + 1 == child_level,
            px == parent_pos.x && py == parent_pos.y && pz == parent_pos.z,
            flat == pyramid@[5]@,
            pyramid@[child_level as int]@.len() >= child_volume * child_volume * child_volume,
            child_mask < (1u32 << (i as u32)),
            leaf_mask < (1u32 << (i as u32)),
            valid_children@.len() == count_bits_below(child_mask, i as nat),
            scan_seen(pyramid@, pl, child_volume as int, px, py, pz, i as int, child_mask, leaf_mask, valid_children@),
            forall|k: int|
                0 <= k < valid_children@.len() ==> {
                    let c = #[trigger] valid_children@[k];
                    &&& 0 <= c.pos.x < child_volume && 0 <= c.pos.y < child_volume && 0 <= c.pos.z
                        < child_volume
                    &&& c.payload == cell(
                        pyramid@,
                        child_level as int,
                        child_volume as int,
                        c.pos.x as int,
                        c.pos.y as int,
                        c.pos.z as int,
                    )
                    &&& c.payload != AIR_MARKER
                    &&& c.is_leaf == (c.payload != BRANCH_MARKER)
                },
        decreases 8 - i,
    {
        proof {
            lemma_child_bits(i);
        }
        let child_pos = V3i {
            x: (parent_pos.x * 2) + (i & 1),
            y: (parent_pos.y * 2) + ((i >> 1) & 1),
            z: (parent_pos.z * 2) + ((i >> 2) & 1),
        };
        proof {
            lemma_index_bounds(
                child_volume as int,
                child_pos.x as int,
                child_pos.y as int,
                child_pos.z as int,
            );
        }
        let child_idx = child_pos.x + (child_pos.y * child_volume) + (child_pos.z * child_volume
            * child_volume);
        let val = pyramid[child_level][child_idx as usize];
        assert(val == child_cell(pyramid@, pl as int, child_volume as int, px, py, pz, i as int));
        let ghost old_cm = child_mask;
        let ghost old_lm = leaf_mask;
        let ghost old_vc = valid_children@;
        if val != AIR_MARKER {
            child_mask |= 1 << i;

            if val != BRANCH_MARKER {
                leaf_mask |= 1 << i;
                valid_children.push(SvoChild { is_leaf: true, payload: val, pos: child_pos });
            } else {
                valid_children.push(SvoChild { is_leaf: false, payload: val, pos: child_pos });
            }
        }
        proof {
            if val != AIR_MARKER {
                assert(valid_children@.drop_last() =~= old_vc);
            }
            assert((i as u32) as int == i as int);
            lemma_scan_step(
                pyramid@,
                pl,
                child_volume as int,
                px,
                py,
                pz,
                i as u32,
                val,
                old_cm,
                old_lm,
                child_mask,
                leaf_mask,
                old_vc,
                valid_children@,
            );
        }
        i = i + 1;
    }
    assert((1u32 << (8u32)) == 256u32) by (bit_vector);
    let r = (child_mask, leaf_mask, valid_children);
    proof {
        if child_volume == level_volume(child_level as int) && level_built(pyramid@, flat, child_level as int) {
            lemma_cells_are_values(pyramid@, pl as int, px, py, pz);
            assert forall|i: u32|
                i < 8 implies {
                    let cv = child_value(
                        pyramid@[5]@,
                        (child_level - 1) as nat,
                        parent_pos.x as int,
                        parent_pos.y as int,
                        parent_pos.z as int,
                        i as int,
                    );
                    &&& #[trigger] bit(r.0, i) == (cv != AIR_MARKER)
                    &&& bit(r.1, i) == (cv != AIR_MARKER && cv != BRANCH_MARKER)
                    &&& cv != AIR_MARKER ==> {
                        let c = r.2@[count_bits_below(r.0, i as nat) as int];
                        let p = child_pos_spec(
                            parent_pos.x as int,
                            parent_pos.y as int,
                            parent_pos.z as int,
                            i as int,
                        );
                        &&& c.payload == cv
                        &&& c.is_leaf == (cv != BRANCH_MARKER)
                        &&& c.pos.x == p.0 && c.pos.y == p.1 && c.pos.z == p.2
                    }
                } by {
                assert(child_cell(pyramid@, pl as int, child_volume as int, px, py, pz, i as int) == child_value(flat, pl, px, py, pz, i as int));
                assert(bit(child_mask, i) == (child_cell(pyramid@, pl as int, child_volume as int, px, py, pz, i as int) != AIR_MARKER));
            }
            assert forall|k: int| 0 <= k < r.2@.len() implies {
                let c = #[trigger] r.2@[k];
                &&& in_level(child_level as int, c.pos.x as int, c.pos.y as int, c.pos.z as int)
                &&& c.payload == node_value(
                    pyramid@[5]@,
                    child_level as nat,
                    c.pos.x as int,
                    c.pos.y as int,
                    c.pos.z as int,
                )
                &&& c.payload != AIR_MARKER
                &&& c.is_leaf == (c.payload != BRANCH_MARKER)
            } by {
                let c = r.2@[k];
                assert(level_built(pyramid@, flat, child_level as int));
                assert(pyramid@[child_level as int]@[level_index(child_level as int, c.pos.x as int, c.pos.y as int, c.pos.z as int)]
                    == node_value(flat, child_level as nat, c.pos.x as int, c.pos.y as int, c.pos.z as int));
            }
        }
    }
    r
}

} // verus!

verus! {

/// A node of the pyramid: (level, x, y, z).
pub type NodeId = (int, int, int, int);

/// Child `i` of a node.
pub open spec fn child_node(n: NodeId, i: int) -> NodeId {
    let p = child_pos_spec(n.1, n.2, n.3, i);
    (n.0 + 1, p.0, p.1, p.2)
}

/// The pyramid value of a node.
pub open spec fn value_of(flat: Seq<u32>, n: NodeId) -> u32 {
    node_value(flat, n.0 as nat, n.1, n.2, n.3)
}

/// No voxel of the chunk holds the branch marker.
pub open spec fn no_branch_voxels(flat: Seq<u32>) -> bool {
    forall|x: int, y: int, z: int|
        in_local(x, y, z) ==> #[trigger] flat[local_index(x, y, z)] != BRANCH_MARKER
}

/// Along one axis: the coordinate of the child of scale `s` holding `x` is
/// twice the parent's coordinate plus the bit that picks the child.
proof fn lemma_axis_child(s: int, p: int, x: int)
    requires
        s >= 1,
        0 <= x,
        x / (s * 2) == p,
    ensures
        x / s == 2 * p + (x / s) % 2,
        0 <= (x / s) % 2 < 2,
{
    vstd::arithmetic::div_mod::lemma_div_denominator(x, s, 2);
    vstd::arithmetic::div_mod::lemma_fundamental_div_mod(x / s, 2);
}

proof fn lemma_octant_bits(bx: int, by: int, bz: int)
    requires
        0 <= bx < 2,
        0 <= by < 2,
        0 <= bz < 2,
    ensures
        0 <= bx + 2 * by + 4 * bz < 8,
        (bx + 2 * by + 4 * bz) % 2 == bx,
        ((bx + 2 * by + 4 * bz) / 2) % 2 == by,
        (bx + 2 * by + 4 * bz) / 4 == bz,
{
}

proof fn lemma_child_region(l: int, px: int, py: int, pz: int, x: int, y: int, z: int)
    requires
        0 <= l < 5,
        in_level(l, px, py, pz),
        in_region(l, px, py, pz, x, y, z),
    ensures
        octant(l, x, y, z) < 8,
        in_level(
            l + 1,
            child_pos_spec(px, py, pz, octant(l, x, y, z) as int).0,
            child_pos_spec(px, py, pz, octant(l, x, y, z) as int).1,
            child_pos_spec(px, py, pz, octant(l, x, y, z) as int).2,
        ),
        in_region(
            l + 1,
            child_pos_spec(px, py, pz, octant(l, x, y, z) as int).0,
            child_pos_spec(px, py, pz, octant(l, x, y, z) as int).1,
            child_pos_spec(px, py, pz, octant(l, x, y, z) as int).2,
            x,
            y,
            z,
        ),
{
    let s = region_size(l + 1);
    assert(region_size(l) == s * 2);
    assert(level_volume(l + 1) == 2 * level_volume(l));
    assert(s * level_volume(l + 1) == 32);
    lemma_axis_child(s, px, x);
    lemma_axis_child(s, py, y);
    lemma_axis_child(s, pz, z);
    let bx = (x / s) % 2;
    let by = (y / s) % 2;
    let bz = (z / s) % 2;
    lemma_octant_bits(bx, by, bz);
    assert(octant(l, x, y, z) as int == bx + 2 * by + 4 * bz);
}

/// A node whose value is not the branch marker holds that value in every
/// voxel of its region.
pub proof fn lemma_uniform(flat: Seq<u32>, l: int, px: int, py: int, pz: int, x: int, y: int, z: int)
    requires
        0 <= l <= 5,
        in_level(l, px, py, pz),
        in_region(l, px, py, pz, x, y, z),
        node_value(flat, l as nat, px, py, pz) != BRANCH_MARKER,
    ensures
        flat[local_index(x, y, z)] == node_value(flat, l as nat, px, py, pz),
    decreases 5 - l,
{
    if l < 5 {
        lemma_child_region(l, px, py, pz, x, y, z);
        let i = octant(l, x, y, z) as int;
        let c = child_pos_spec(px, py, pz, i);
        assert(i == 0 || i == 1 || i == 2 || i == 3 || i == 4 || i == 5 || i == 6 || i == 7);
        assert(child_value(flat, l as nat, px, py, pz, i) == node_value(flat, l as nat, px, py, pz));
        lemma_uniform(flat, l + 1, c.0, c.1, c.2, x, y, z);
    }
}

} // verus!

verus! {

/// Child `i` of the node `n`, whose word is `w`, is encoded in `w` and, when
/// it exists, sits in the slot that `w` points at.
pub open spec fn child_slot_ok(flat: Seq<u32>, owners: Seq<NodeId>, n: NodeId, w: u32, i: u32) -> bool {
    let cv = child_value(flat, n.0 as nat, n.1, n.2, n.3, i as int);
    &&& spec_has_child(w, i) == (cv != AIR_MARKER)
    &&& spec_is_leaf(w, i) == (cv != AIR_MARKER && cv != BRANCH_MARKER)
    &&& cv != AIR_MARKER ==> owners[(w & 0xFFFFu32) + child_rank(w, i)] == child_node(n, i as int)
}

/// `w` is a correct word for the branch node `n`.
pub open spec fn branch_word_ok(
    flat: Seq<u32>,
    out: Seq<u32>,
    owners: Seq<NodeId>,
    n: NodeId,
    w: u32,
) -> bool {
    &&& 0 <= n.0 < 5
    &&& (w & 0xFFFFu32) >= 1
    &&& (w & 0xFFFFu32) + child_count(w) <= out.len()
    &&& forall|i: u32| i < 8 ==> #[trigger] child_slot_ok(flat, owners, n, w, i)
}

/// Slot `k` of the output holds its final value: the payload of a leaf, or
/// the word of a branch (the root counts as a branch).
pub open spec fn slot_done(flat: Seq<u32>, out: Seq<u32>, owners: Seq<NodeId>, k: int) -> bool {
    let n = owners[k];
    if k != 0 && value_of(flat, n) != BRANCH_MARKER {
        out[k] == value_of(flat, n)
    } else {
        branch_word_ok(flat, out, owners, n, out[k])
    }
}

/// The nodes that own the slots of the output: the root owns slot 0, every
/// other slot a node of level 1 to 5.
pub open spec fn owners_ok(owners: Seq<NodeId>) -> bool {
    &&& owners.len() >= 1
    &&& owners[0] == (0int, 0int, 0int, 0int)
    &&& forall|k: int|
        0 <= k < owners.len() ==> {
            let n = #[trigger] owners[k];
            &&& 0 <= n.0 <= 5
            &&& in_level(n.0, n.1, n.2, n.3)
            &&& k != 0 ==> n.0 >= 1
        }
}

pub open spec fn all_slots_done(flat: Seq<u32>, out: Seq<u32>, owners: Seq<NodeId>) -> bool {
    forall|k: int| 0 <= k < out.len() ==> #[trigger] slot_done(flat, out, owners, k)
}

/// Decoding from a branch slot gives back every voxel of that node's region.
proof fn lemma_decode(
    flat: Seq<u32>,
    out: Seq<u32>,
    owners: Seq<NodeId>,
    k: int,
    x: int,
    y: int,
    z: int,
)
    requires
        owners.len() == out.len(),
        owners_ok(owners),
        all_slots_done(flat, out, owners),
        no_branch_voxels(flat),
        0 <= k < out.len(),
        k == 0 || value_of(flat, owners[k]) == BRANCH_MARKER,
        owners[k].0 < 5,
        in_region(owners[k].0, owners[k].1, owners[k].2, owners[k].3, x, y, z),
    ensures
        svo_lookup(out, out[k], owners[k].0 as nat, x, y, z) == flat[local_index(x, y, z)],
    decreases 5 - owners[k].0,
{
    let n = owners[k];
    let w = out[k];
    assert(slot_done(flat, out, owners, k));
    assert(branch_word_ok(flat, out, owners, n, w));
    lemma_child_region(n.0, n.1, n.2, n.3, x, y, z);
    let i = octant(n.0, x, y, z);
    assert(child_slot_ok(flat, owners, n, w, i));
    let c = child_node(n, i as int);
    let cv = child_value(flat, n.0 as nat, n.1, n.2, n.3, i as int);
    assert(cv == value_of(flat, c));
    if cv == AIR_MARKER {
        lemma_uniform(flat, c.0, c.1, c.2, c.3, x, y, z);
    } else {
        lemma_rank_below_count(w, i);
        let idx = (w & 0xFFFFu32) + child_rank(w, i);
        assert(owners[idx] == c);
        assert(idx != 0);
        assert(slot_done(flat, out, owners, idx));
        if cv != BRANCH_MARKER {
            lemma_uniform(flat, c.0, c.1, c.2, c.3, x, y, z);
        } else {
            if c.0 == 5 {
                assert(flat[local_index(c.1, c.2, c.3)] != BRANCH_MARKER);
            }
            lemma_decode(flat, out, owners, idx, x, y, z);
        }
    }
}

/// Every branch slot of the output holds a well-formed node whose blocks
/// come after the root.
proof fn lemma_tree_shape(flat: Seq<u32>, out: Seq<u32>, owners: Seq<NodeId>, k: int)
    requires
        owners.len() == out.len(),
        owners_ok(owners),
        all_slots_done(flat, out, owners),
        no_branch_voxels(flat),
        0 <= k < out.len(),
        k == 0 || value_of(flat, owners[k]) == BRANCH_MARKER,
        owners[k].0 < 5,
    ensures
        node_in(out, out[k], owners[k].0 as nat, 1),
    decreases 5 - owners[k].0,
{
    let n = owners[k];
    let w = out[k];
    assert(slot_done(flat, out, owners, k));
    assert(branch_word_ok(flat, out, owners, n, w));
    assert forall|i: u32|
        #![trigger spec_has_child(w, i)]
        i < 8 && spec_has_child(w, i) && !spec_is_leaf(w, i) implies node_in(
            out,
            out[child_slot(w, i)],
            (n.0 + 1) as nat,
            1,
        ) by {
        assert(child_slot_ok(flat, owners, n, w, i));
        lemma_rank_below_count(w, i);
        let c = child_node(n, i as int);
        let cv = child_value(flat, n.0 as nat, n.1, n.2, n.3, i as int);
        assert(cv == value_of(flat, c));
        let idx = child_slot(w, i);
        assert(owners[idx] == c);
        assert(idx != 0);
        if c.0 == 5 {
            assert(in_level(c.0, c.1, c.2, c.3));
            assert(flat[local_index(c.1, c.2, c.3)] != BRANCH_MARKER);
        }
        lemma_tree_shape(flat, out, owners, idx);
    }
}

/// Below the branch node `w` of the given level, stored in `d`, the octree
/// is pruned: no leaf child holds air (air is left out), and every branch
/// child has a child and is not eight leaves of one material (those are
/// stored as one leaf).
pub open spec fn pruned(d: Seq<u32>, w: u32, level: nat) -> bool
    decreases 5 - level,
{
    if level >= 5 {
        true
    } else {
        forall|i: u32|
            #![trigger spec_has_child(w, i)]
            i < 8 && spec_has_child(w, i) ==> if spec_is_leaf(w, i) {
                d[child_slot(w, i)] != AIR_MARKER
            } else {
                &&& child_byte(d[child_slot(w, i)]) != 0
                &&& !eight_equal_leaves(d, d[child_slot(w, i)])
                &&& pruned(d, d[child_slot(w, i)], (level + 1) as nat)
            }
    }
}

/// Every voxel of the chunk `flat` is the material `m`.
pub open spec fn uniform_chunk(flat: Seq<u32>, m: u32) -> bool {
    forall|x: int, y: int, z: int| in_local(x, y, z) ==> #[trigger] flat[local_index(x, y, z)] == m
}

/// The octree of a chunk that is all one material `m`: only the root, with
/// no children where `m` is air, else with eight leaves of `m`.
pub open spec fn uniform_svo(m: u32) -> Seq<u32> {
    if m == AIR_MARKER {
        seq![1u32]
    } else {
        seq![0xFFFF_0001u32, m, m, m, m, m, m, m, m]
    }
}

/// In a chunk of one material every node of the pyramid has that value.
proof fn lemma_uniform_nodes(flat: Seq<u32>, m: u32, level: nat, x: int, y: int, z: int)
    requires
        uniform_chunk(flat, m),
        m != BRANCH_MARKER,
        level <= 5,
        in_level(level as int, x, y, z),
    ensures
        node_value(flat, level, x, y, z) == m,
    decreases 5 - level,
{
    if level < 5 {
        assert(level_volume(level + 1int) == 2 * level_volume(level as int));
        assert forall|i: int| 0 <= i < 8 implies #[trigger] child_value(flat, level, x, y, z, i) == m by {
            lemma_uniform_nodes(flat, m, (level + 1) as nat, 2 * x + i % 2, 2 * y + (i / 2) % 2, 2 * z + i / 4);
        }
        assert(child_value(flat, level, x, y, z, 0) == m);
        assert(child_value(flat, level, x, y, z, 1) == m);
        assert(child_value(flat, level, x, y, z, 2) == m);
        assert(child_value(flat, level, x, y, z, 3) == m);
        assert(child_value(flat, level, x, y, z, 4) == m);
        assert(child_value(flat, level, x, y, z, 5) == m);
        assert(child_value(flat, level, x, y, z, 6) == m);
        assert(child_value(flat, level, x, y, z, 7) == m);
    }
}

/// The output below every branch slot is pruned.
proof fn lemma_pruned(flat: Seq<u32>, out: Seq<u32>, owners: Seq<NodeId>, k: int)
    requires
        owners.len() == out.len(),
        owners_ok(owners),
        all_slots_done(flat, out, owners),
        no_branch_voxels(flat),
        0 <= k < out.len(),
        k == 0 || value_of(flat, owners[k]) == BRANCH_MARKER,
        owners[k].0 < 5,
    ensures
        pruned(out, out[k], owners[k].0 as nat),
    decreases 5 - owners[k].0,
{
    let n = owners[k];
    let w = out[k];
    assert(slot_done(flat, out, owners, k));
    assert(branch_word_ok(flat, out, owners, n, w));
    assert forall|i: u32|
        #![trigger spec_has_child(w, i)]
        i < 8 && spec_has_child(w, i) implies if spec_is_leaf(w, i) {
            out[child_slot(w, i)] != AIR_MARKER
        } else {
            &&& child_byte(out[child_slot(w, i)]) != 0
            &&& !eight_equal_leaves(out, out[child_slot(w, i)])
            &&& pruned(out, out[child_slot(w, i)], (n.0 + 1) as nat)
        } by {
        assert(child_slot_ok(flat, owners, n, w, i));
        lemma_rank_below_count(w, i);
        let c = child_node(n, i as int);
        let cv = child_value(flat, n.0 as nat, n.1, n.2, n.3, i as int);
        assert(cv == value_of(flat, c));
        let idx = child_slot(w, i);
        assert(owners[idx] == c);
        assert(idx != 0);
        assert(slot_done(flat, out, owners, idx));
        if !spec_is_leaf(w, i) {
            if c.0 == 5 {
                assert(in_level(c.0, c.1, c.2, c.3));
                assert(flat[local_index(c.1, c.2, c.3)] != BRANCH_MARKER);
            }
            let w2 = out[idx];
            assert(branch_word_ok(flat, out, owners, c, w2));
            // Some child of a branch node holds something.
            if child_byte(w2) == 0 {
                assert forall|j: int| 0 <= j < 8 implies #[trigger] child_value(flat, c.0 as nat, c.1, c.2, c.3, j)
                    == AIR_MARKER by {
                    let ju = j as u32;
                    assert(child_slot_ok(flat, owners, c, w2, ju));
                    assert(!spec_has_child(w2, ju)) by (bit_vector)
                        requires
                            (w2 >> 24u32) == 0,
                            ju < 8,
                            spec_has_child(w2, ju) == ((w2 >> ((ju + 24) as u32)) & 1u32 == 1u32),
                    ;
                }
                assert(c.0 < 5);
                assert(child_value(flat, c.0 as nat, c.1, c.2, c.3, 0) == AIR_MARKER);
                assert(child_value(flat, c.0 as nat, c.1, c.2, c.3, 1) == AIR_MARKER);
                assert(child_value(flat, c.0 as nat, c.1, c.2, c.3, 2) == AIR_MARKER);
                assert(child_value(flat, c.0 as nat, c.1, c.2, c.3, 3) == AIR_MARKER);
                assert(child_value(flat, c.0 as nat, c.1, c.2, c.3, 4) == AIR_MARKER);
                assert(child_value(flat, c.0 as nat, c.1, c.2, c.3, 5) == AIR_MARKER);
                assert(child_value(flat, c.0 as nat, c.1, c.2, c.3, 6) == AIR_MARKER);
                assert(child_value(flat, c.0 as nat, c.1, c.2, c.3, 7) == AIR_MARKER);
                assert(node_value(flat, c.0 as nat, c.1, c.2, c.3) == AIR_MARKER);
                assert(value_of(flat, c) == AIR_MARKER);
            }
            if eight_equal_leaves(out, w2) {
                let p0 = node_ptr(w2);
                assert forall|j: int| 0 <= j < 8 implies #[trigger] child_value(flat, c.0 as nat, c.1, c.2, c.3, j)
                    == out[p0] by {
                    let ju = j as u32;
                    assert(child_slot_ok(flat, owners, c, w2, ju));
                    assert(spec_has_child(w2, ju) && spec_is_leaf(w2, ju));
                    lemma_rank_below_count(w2, ju);
                    let cj = child_node(c, j);
                    let sj = child_slot(w2, ju);
                    assert(owners[sj] == cj);
                    assert(child_value(flat, c.0 as nat, c.1, c.2, c.3, j) == value_of(flat, cj));
                    assert(sj != 0);
                    assert(slot_done(flat, out, owners, sj));
                    assert(out[child_slot(w2, ju)] == out[node_ptr(w2)]);
                }
                assert(c.0 < 5);
                assert(child_slot_ok(flat, owners, c, w2, 0));
                assert(spec_has_child(w2, 0) && spec_is_leaf(w2, 0));
                assert(child_value(flat, c.0 as nat, c.1, c.2, c.3, 0) == out[p0]);
                assert(child_value(flat, c.0 as nat, c.1, c.2, c.3, 1) == out[p0]);
                assert(child_value(flat, c.0 as nat, c.1, c.2, c.3, 2) == out[p0]);
                assert(child_value(flat, c.0 as nat, c.1, c.2, c.3, 3) == out[p0]);
                assert(child_value(flat, c.0 as nat, c.1, c.2, c.3, 4) == out[p0]);
                assert(child_value(flat, c.0 as nat, c.1, c.2, c.3, 5) == out[p0]);
                assert(child_value(flat, c.0 as nat, c.1, c.2, c.3, 6) == out[p0]);
                assert(child_value(flat, c.0 as nat, c.1, c.2, c.3, 7) == out[p0]);
                assert(child_value(flat, c.0 as nat, c.1, c.2, c.3, 0) != BRANCH_MARKER);
                assert(node_value(flat, c.0 as nat, c.1, c.2, c.3) == out[p0]);
                assert(value_of(flat, c) == out[p0]);
            }
            lemma_pruned(flat, out, owners, idx);
        }
    }
}

} // verus!

verus! {

/// An entry of the breadth-first queue: (level, position, output slot).
pub type QueueEntry = (usize, V3i, usize);

/// An upper bound on the number of nodes below a queued node of the given
/// level (the node included) that are still to be serialised.
pub open spec fn level_weight(level: int) -> int {
    if level >= 5 {
        0
    } else if level == 4 {
        1
    } else if level == 3 {
        9
    } else if level == 2 {
        73
    } else if level == 1 {
        585
    } else {
        4681
    }
}

pub open spec fn queue_weight(q: Seq<QueueEntry>) -> int
    decreases q.len(),
{
    if q.len() == 0 {
        0
    } else {
        level_weight(q[0].0 as int) + queue_weight(q.drop_first())
    }
}

proof fn lemma_queue_weight_push(q: Seq<QueueEntry>, e: QueueEntry)
    ensures
        queue_weight(q.push(e)) == queue_weight(q) + level_weight(e.0 as int),
    decreases q.len(),
{
    if q.len() == 0 {
        assert(q.push(e).drop_first() =~= Seq::<QueueEntry>::empty());
        assert(queue_weight(q.push(e).drop_first()) == 0);
    } else {
        assert(q.push(e).drop_first() =~= q.drop_first().push(e));
        lemma_queue_weight_push(q.drop_first(), e);
        assert(q.push(e)[0] == q[0]);
    }
}

proof fn lemma_queue_weight_nonneg(q: Seq<QueueEntry>)
    ensures
        queue_weight(q) >= 0,
    decreases q.len(),
{
    if q.len() > 0 {
        lemma_queue_weight_nonneg(q.drop_first());
    }
}

/// Slot `k` is waiting in the queue.
pub open spec fn pending(q: Seq<QueueEntry>, k: int) -> bool {
    exists|qi: int| 0 <= qi < q.len() && #[trigger] q[qi].2 == k
}

/// Every queued entry names a branch slot of the output, and the slots come
/// in increasing order.
pub open spec fn queue_ok(flat: Seq<u32>, q: Seq<QueueEntry>, owners: Seq<NodeId>) -> bool {
    &&& forall|qi: int|
        0 <= qi < q.len() ==> {
            let e = #[trigger] q[qi];
            &&& e.2 < owners.len()
            &&& owners[e.2 as int] == (e.0 as int, e.1.x as int, e.1.y as int, e.1.z as int)
            &&& e.0 <= 4
            &&& (e.2 == 0 || value_of(flat, owners[e.2 as int]) == BRANCH_MARKER)
        }
    &&& forall|qi: int, qj: int| 0 <= qi < qj < q.len() ==> #[trigger] q[qi].2 < #[trigger] q[qj].2
}

proof fn lemma_node_word_bits(cm: u32, lm: u32, p: u32, i: u32)
    requires
        cm < 256,
        lm < 256,
        p < 0x10000,
        i < 8,
    ensures
        ((cm << 24u32) | (lm << 16u32) | p) & 0xFFFFu32 == p,
        child_byte((cm << 24u32) | (lm << 16u32) | p) == cm,
        spec_has_child((cm << 24u32) | (lm << 16u32) | p, i) == bit(cm, i),
        spec_is_leaf((cm << 24u32) | (lm << 16u32) | p, i) == bit(lm, i),
{
    assert(((cm << 24u32) | (lm << 16u32) | p) & 0xFFFFu32 == p) by (bit_vector)
        requires
            cm < 256,
            lm < 256,
            p < 0x10000,
    ;
    assert(((cm << 24u32) | (lm << 16u32) | p) >> 24u32 == cm) by (bit_vector)
        requires
            cm < 256,
            lm < 256,
            p < 0x10000,
    ;
    assert(((((cm << 24u32) | (lm << 16u32) | p) >> ((i + 24) as u32)) & 1u32 == 1u32) == ((cm
        >> i) & 1u32 == 1u32)) by (bit_vector)
        requires
            cm < 256,
            lm < 256,
            p < 0x10000,
            i < 8,
    ;
    assert(((((cm << 24u32) | (lm << 16u32) | p) >> ((i + 16) as u32)) & 1u32 == 1u32) == ((lm
        >> i) & 1u32 == 1u32)) by (bit_vector)
        requires
            cm < 256,
            lm < 256,
            p < 0x10000,
            i < 8,
    ;
}

/// A finished slot stays finished when the output grows and other slots
/// change.
proof fn lemma_slot_done_stable(
    flat: Seq<u32>,
    out1: Seq<u32>,
    owners1: Seq<NodeId>,
    out2: Seq<u32>,
    owners2: Seq<NodeId>,
    k: int,
)
    requires
        0 <= k < out1.len() <= out2.len(),
        owners1.len() == out1.len(),
        owners2.len() == out2.len(),
        forall|j: int| 0 <= j < owners1.len() ==> owners2[j] == owners1[j],
        out2[k] == out1[k],
        slot_done(flat, out1, owners1, k),
    ensures
        slot_done(flat, out2, owners2, k),
{
    let n = owners1[k];
    let w = out1[k];
    if !(k != 0 && value_of(flat, n) != BRANCH_MARKER) {
        assert forall|i: u32| i < 8 implies #[trigger] child_slot_ok(flat, owners2, n, w, i) by {
            assert(child_slot_ok(flat, owners1, n, w, i));
            let cv = child_value(flat, n.0 as nat, n.1, n.2, n.3, i as int);
            if cv != AIR_MARKER {
                lemma_rank_below_count(w, i);
            }
        }
    }
}

} // verus!

verus! {

/// How many children the branch words at the first `j` slots of `inner`
/// have.
pub open spec fn children_before(d: Seq<u32>, inner: Seq<int>, j: int) -> nat
    decreases j,
{
    if j <= 0 {
        0
    } else {
        children_before(d, inner, j - 1) + child_count(d[inner[j - 1]])
    }
}

/// Slot `k` is a branch child of some branch word at one of the first `j`
/// slots of `inner`: its child bit is set, its leaf bit clear.
pub open spec fn branch_child_of(d: Seq<u32>, inner: Seq<int>, j: int, k: int) -> bool {
    exists|t: int, i: u32|
        #![trigger child_slot(d[inner[t]], i)]
        0 <= t < j && i < 8 && spec_has_child(d[inner[t]], i) && !spec_is_leaf(d[inner[t]], i)
            && child_slot(d[inner[t]], i) == k
}

/// The octree `d` is laid out breadth first, `inner` being its branch slots
/// in increasing order: the root (slot 0) and exactly the slots that a
/// branch word reaches through a child whose leaf bit is clear. Each branch
/// word's children follow those of the branch words before it, from slot 1
/// on, and the octree ends after the last of them; no leaf bit is set
/// without its child bit.
pub open spec fn bfs_layout(d: Seq<u32>, inner: Seq<int>) -> bool {
    &&& inner.len() >= 1
    &&& inner[0] == 0
    &&& forall|j: int| 0 <= j < inner.len() ==> 0 <= #[trigger] inner[j] < d.len()
    &&& forall|j: int, k: int| 0 <= j < k < inner.len() ==> #[trigger] inner[j] < #[trigger] inner[k]
    &&& forall|j: int|
        0 <= j < inner.len() ==> node_ptr(d[#[trigger] inner[j]]) == 1 + children_before(d, inner, j)
    &&& d.len() == 1 + children_before(d, inner, inner.len() as int)
    &&& forall|j: int, i: u32|
        0 <= j < inner.len() && i < 8 && spec_has_child(d[inner[j]], i) && !spec_is_leaf(d[inner[j]], i)
            ==> inner.contains(#[trigger] child_slot(d[inner[j]], i))
    &&& forall|t: int| 1 <= t < inner.len() ==> branch_child_of(d, inner, t, #[trigger] inner[t])
    &&& forall|j: int, i: u32|
        0 <= j < inner.len() && i < 8 && #[trigger] spec_is_leaf(d[inner[j]], i) ==> spec_has_child(
            d[inner[j]],
            i,
        )
}

/// What the breadth-first writer keeps while it works: the branch slots `p`
/// written so far, in order, and the queue `q` of branch slots still to
/// write.
#[verifier::opaque]
pub open spec fn bfs_progress(d: Seq<u32>, p: Seq<int>, q: Seq<QueueEntry>) -> bool {
    &&& forall|j: int| 0 <= j < p.len() ==> 0 <= #[trigger] p[j] < d.len()
    &&& forall|j: int, k: int| 0 <= j < k < p.len() ==> #[trigger] p[j] < #[trigger] p[k]
    &&& forall|j: int| 0 <= j < p.len() ==> node_ptr(d[#[trigger] p[j]]) == 1 + children_before(d, p, j)
    &&& d.len() == 1 + children_before(d, p, p.len() as int)
    &&& p.len() == 0 ==> q.len() == 1 && q[0].2 == 0
    &&& p.len() > 0 ==> p[0] == 0
    &&& forall|qi: int| 0 <= qi < q.len() && p.len() > 0 ==> #[trigger] q[qi].2 > p[p.len() - 1]
    &&& forall|qi: int| 0 <= qi < q.len() ==> #[trigger] q[qi].2 < d.len()
    &&& forall|qi: int, qj: int| 0 <= qi < qj < q.len() ==> #[trigger] q[qi].2 < #[trigger] q[qj].2
    &&& forall|j: int, i: u32|
        0 <= j < p.len() && i < 8 && spec_has_child(d[p[j]], i) && !spec_is_leaf(d[p[j]], i) ==> p.contains(
            #[trigger] child_slot(d[p[j]], i),
        ) || pending(q, child_slot(d[p[j]], i))
    &&& forall|t: int| 1 <= t < p.len() ==> branch_child_of(d, p, t, #[trigger] p[t])
    &&& forall|qi: int| 0 <= qi < q.len() && p.len() > 0 ==> branch_child_of(d, p, p.len() as int, (#[trigger] q[qi]).2 as int)
}

/// Slot `k` is a branch child of the node word `w`.
pub open spec fn branch_child_slot(w: u32, k: int) -> bool {
    exists|i: u32|
        #![trigger child_slot(w, i)]
        i < 8 && spec_has_child(w, i) && !spec_is_leaf(w, i) && child_slot(w, i) == k
}

proof fn lemma_children_before_frame(d1: Seq<u32>, d2: Seq<u32>, p: Seq<int>, j: int)
    requires
        0 <= j <= p.len(),
        forall|t: int| 0 <= t < j ==> d1[p[t]] == d2[p[t]],
    ensures
        children_before(d1, p, j) == children_before(d2, p, j),
    decreases j,
{
    if j > 0 {
        lemma_children_before_frame(d1, d2, p, j - 1);
    }
}

proof fn lemma_children_before_push(d: Seq<u32>, p: Seq<int>, x: int, j: int)
    requires
        0 <= j <= p.len(),
    ensures
        children_before(d, p.push(x), j) == children_before(d, p, j),
    decreases j,
{
    if j > 0 {
        lemma_children_before_push(d, p, x, j - 1);
        assert(p.push(x)[j - 1] == p[j - 1]);
    }
}

/// The written slots after one more node: in range, in order, and each
/// pointing where the children before it end.
#[verifier::spinoff_prover]
#[verifier::rlimit(100)]
proof fn lemma_bfs_step_slots(
    out0: Seq<u32>,
    out1: Seq<u32>,
    p: Seq<int>,
    q0: Seq<QueueEntry>,
    q1: Seq<QueueEntry>,
    my_idx: int,
    w: u32,
)
    requires
        bfs_progress(out0, p, q0),
        q0.len() > 0,
        q0[0].2 == my_idx,
        node_ptr(w) == out0.len(),
        out1.len() == out0.len() + child_count(w),
        out1[my_idx] == w,
        forall|k: int| 0 <= k < out0.len() && k != my_idx ==> out1[k] == out0[k],
        q1.len() >= q0.len() - 1,
        forall|qi: int| 0 <= qi < q0.len() - 1 ==> q1[qi] == q0[qi + 1],
        forall|qi: int|
            q0.len() - 1 <= qi < q1.len() ==> branch_child_slot(w, (#[trigger] q1[qi]).2 as int),
        forall|i: u32|
            i < 8 && spec_has_child(w, i) && !spec_is_leaf(w, i) ==> pending(q1, #[trigger] child_slot(w, i)),
        forall|qi: int, qj: int| 0 <= qi < qj < q1.len() ==> #[trigger] q1[qi].2 < #[trigger] q1[qj].2,
        forall|i: u32| i < 8 && spec_has_child(w, i) ==> out0.len() <= #[trigger] child_slot(w, i) < out1.len(),
    ensures
        ({
            let p1 = p.push(my_idx);
            &&& forall|j: int| 0 <= j < p1.len() ==> 0 <= #[trigger] p1[j] < out1.len()
            &&& forall|j: int, k: int| 0 <= j < k < p1.len() ==> #[trigger] p1[j] < #[trigger] p1[k]
            &&& forall|j: int| 0 <= j < p1.len() ==> node_ptr(out1[#[trigger] p1[j]]) == 1 + children_before(out1, p1, j)
            &&& out1.len() == 1 + children_before(out1, p1, p1.len() as int)
            &&& p1[0] == 0
        }),
{
    reveal(bfs_progress);
    let p1 = p.push(my_idx);
    let n = p.len() as int;
    assert(my_idx < out0.len());
    assert forall|j: int| 0 <= j < n implies p[j] < my_idx by {
        if n > 0 {
            assert(q0[0].2 > p[n - 1]);
            if j < n - 1 {
                assert(p[j] < p[n - 1]);
            }
        }
    }
    assert forall|t: int| 0 <= t < n implies out0[p[t]] == out1[p1[t]] by {
        assert(p1[t] == p[t]);
        assert(p[t] != my_idx);
    }
    assert forall|j: int| 0 <= j <= n implies children_before(out1, p1, j) == children_before(out0, p, j) by {
        lemma_children_before_push(out1, p, my_idx, j);
        lemma_children_before_frame(out0, out1, p, j);
    }
    assert(children_before(out1, p1, n + 1) == children_before(out0, p, n) + child_count(w));
    assert forall|j: int| 0 <= j < p1.len() implies node_ptr(out1[#[trigger] p1[j]]) == 1 + children_before(out1, p1, j) by {
        if j < n {
            assert(p1[j] == p[j]);
        }
    }
    if n == 0 {
        assert(my_idx == 0);
    } else {
        assert(p1[0] == p[0]);
    }
    assert forall|j: int, k: int| 0 <= j < k < p1.len() implies #[trigger] p1[j] < #[trigger] p1[k] by {
        if k < n {
            assert(p1[j] == p[j] && p1[k] == p[k]);
        } else {
            assert(p1[j] == p[j]);
        }
    }
}

/// The queue after one more node: behind the written slots and in range.
#[verifier::spinoff_prover]
#[verifier::rlimit(100)]
proof fn lemma_bfs_step_queue(
    out0: Seq<u32>,
    out1: Seq<u32>,
    p: Seq<int>,
    q0: Seq<QueueEntry>,
    q1: Seq<QueueEntry>,
    my_idx: int,
    w: u32,
)
    requires
        bfs_progress(out0, p, q0),
        q0.len() > 0,
        q0[0].2 == my_idx,
        node_ptr(w) == out0.len(),
        out1.len() == out0.len() + child_count(w),
        out1[my_idx] == w,
        forall|k: int| 0 <= k < out0.len() && k != my_idx ==> out1[k] == out0[k],
        q1.len() >= q0.len() - 1,
        forall|qi: int| 0 <= qi < q0.len() - 1 ==> q1[qi] == q0[qi + 1],
        forall|qi: int|
            q0.len() - 1 <= qi < q1.len() ==> branch_child_slot(w, (#[trigger] q1[qi]).2 as int),
        forall|i: u32|
            i < 8 && spec_has_child(w, i) && !spec_is_leaf(w, i) ==> pending(q1, #[trigger] child_slot(w, i)),
        forall|qi: int, qj: int| 0 <= qi < qj < q1.len() ==> #[trigger] q1[qi].2 < #[trigger] q1[qj].2,
        forall|i: u32| i < 8 && spec_has_child(w, i) ==> out0.len() <= #[trigger] child_slot(w, i) < out1.len(),
    ensures
        ({
            let p1 = p.push(my_idx);
            &&& forall|qi: int| 0 <= qi < q1.len() ==> #[trigger] q1[qi].2 > p1[p1.len() - 1]
            &&& forall|qi: int| 0 <= qi < q1.len() ==> #[trigger] q1[qi].2 < out1.len()
        }),
{
    reveal(bfs_progress);
    let p1 = p.push(my_idx);
    let n = p.len() as int;
    assert(my_idx < out0.len());
    assert forall|j: int| 0 <= j < n implies p[j] < my_idx by {
        if n > 0 {
            assert(q0[0].2 > p[n - 1]);
            if j < n - 1 {
                assert(p[j] < p[n - 1]);
            }
        }
    }
    assert forall|t: int| 0 <= t < n implies out0[p[t]] == out1[p1[t]] by {
        assert(p1[t] == p[t]);
        assert(p[t] != my_idx);
    }
    // The queue: what stays is behind the written slots, what comes is new.
    assert forall|qi: int| 0 <= qi < q1.len() implies #[trigger] q1[qi].2 > p1[p1.len() - 1] by {
        if qi < q0.len() - 1 {
            assert(q0[0].2 < q0[qi + 1].2);
        } else {
            assert(branch_child_slot(w, q1[qi].2 as int));
            let i = choose|i: u32|
                i < 8 && spec_has_child(w, i) && !spec_is_leaf(w, i) && #[trigger] child_slot(w, i) == q1[qi].2;
            assert(out0.len() <= child_slot(w, i));
        }
    }
    assert forall|qi: int| 0 <= qi < q1.len() implies #[trigger] q1[qi].2 < out1.len() by {
        if qi < q0.len() - 1 {
            assert(q0[qi + 1].2 < out0.len());
        } else {
            assert(branch_child_slot(w, q1[qi].2 as int));
            let i = choose|i: u32|
                i < 8 && spec_has_child(w, i) && !spec_is_leaf(w, i) && #[trigger] child_slot(w, i) == q1[qi].2;
        }
    }

}

/// After one more node, every branch child of a written slot is written or
/// queued.
#[verifier::spinoff_prover]
#[verifier::rlimit(100)]
proof fn lemma_bfs_step_children(
    out0: Seq<u32>,
    out1: Seq<u32>,
    p: Seq<int>,
    q0: Seq<QueueEntry>,
    q1: Seq<QueueEntry>,
    my_idx: int,
    w: u32,
)
    requires
        bfs_progress(out0, p, q0),
        q0.len() > 0,
        q0[0].2 == my_idx,
        node_ptr(w) == out0.len(),
        out1.len() == out0.len() + child_count(w),
        out1[my_idx] == w,
        forall|k: int| 0 <= k < out0.len() && k != my_idx ==> out1[k] == out0[k],
        q1.len() >= q0.len() - 1,
        forall|qi: int| 0 <= qi < q0.len() - 1 ==> q1[qi] == q0[qi + 1],
        forall|qi: int|
            q0.len() - 1 <= qi < q1.len() ==> branch_child_slot(w, (#[trigger] q1[qi]).2 as int),
        forall|i: u32|
            i < 8 && spec_has_child(w, i) && !spec_is_leaf(w, i) ==> pending(q1, #[trigger] child_slot(w, i)),
        forall|qi: int, qj: int| 0 <= qi < qj < q1.len() ==> #[trigger] q1[qi].2 < #[trigger] q1[qj].2,
        forall|i: u32| i < 8 && spec_has_child(w, i) ==> out0.len() <= #[trigger] child_slot(w, i) < out1.len(),
    ensures
        ({
            let p1 = p.push(my_idx);
            &&& forall|j: int, i: u32|
                0 <= j < p1.len() && i < 8 && spec_has_child(out1[p1[j]], i) && !spec_is_leaf(out1[p1[j]], i) ==> p1.contains(
                    #[trigger] child_slot(out1[p1[j]], i),
                ) || pending(q1, child_slot(out1[p1[j]], i))
        }),
{
    reveal(bfs_progress);
    let p1 = p.push(my_idx);
    let n = p.len() as int;
    assert(my_idx < out0.len());
    assert forall|j: int| 0 <= j < n implies p[j] < my_idx by {
        if n > 0 {
            assert(q0[0].2 > p[n - 1]);
            if j < n - 1 {
                assert(p[j] < p[n - 1]);
            }
        }
    }
    assert forall|t: int| 0 <= t < n implies out0[p[t]] == out1[p1[t]] by {
        assert(p1[t] == p[t]);
        assert(p[t] != my_idx);
    }
    // Branch children of written slots are written or queued.
    assert forall|j: int, i: u32|
        0 <= j < p1.len() && i < 8 && spec_has_child(out1[p1[j]], i) && !spec_is_leaf(out1[p1[j]], i) implies p1.contains(
            #[trigger] child_slot(out1[p1[j]], i),
        ) || pending(q1, child_slot(out1[p1[j]], i)) by {
        if j < n {
            assert(p1[j] == p[j]);
            assert(out1[p[j]] == out0[p[j]]);
            let cs = child_slot(out0[p[j]], i);
            if p.contains(cs) {
                let t = choose|t: int| 0 <= t < p.len() && p[t] == cs;
                assert(p1[t] == cs);
            } else {
                assert(pending(q0, cs));
                let qi = choose|qi: int| 0 <= qi < q0.len() && #[trigger] q0[qi].2 == cs;
                if qi == 0 {
                    assert(p1[n] == cs);
                } else {
                    assert(q1[qi - 1] == q0[qi]);
                    assert(q1[qi - 1].2 == cs);
                }
            }
        } else {
            assert(p1[j] == my_idx);
        }
    }

}

/// After one more node, every written slot but the root, and every queued
/// slot, has a written parent.
#[verifier::spinoff_prover]
#[verifier::rlimit(100)]
proof fn lemma_bfs_step_parents(
    out0: Seq<u32>,
    out1: Seq<u32>,
    p: Seq<int>,
    q0: Seq<QueueEntry>,
    q1: Seq<QueueEntry>,
    my_idx: int,
    w: u32,
)
    requires
        bfs_progress(out0, p, q0),
        q0.len() > 0,
        q0[0].2 == my_idx,
        node_ptr(w) == out0.len(),
        out1.len() == out0.len() + child_count(w),
        out1[my_idx] == w,
        forall|k: int| 0 <= k < out0.len() && k != my_idx ==> out1[k] == out0[k],
        q1.len() >= q0.len() - 1,
        forall|qi: int| 0 <= qi < q0.len() - 1 ==> q1[qi] == q0[qi + 1],
        forall|qi: int|
            q0.len() - 1 <= qi < q1.len() ==> branch_child_slot(w, (#[trigger] q1[qi]).2 as int),
        forall|i: u32|
            i < 8 && spec_has_child(w, i) && !spec_is_leaf(w, i) ==> pending(q1, #[trigger] child_slot(w, i)),
        forall|qi: int, qj: int| 0 <= qi < qj < q1.len() ==> #[trigger] q1[qi].2 < #[trigger] q1[qj].2,
        forall|i: u32| i < 8 && spec_has_child(w, i) ==> out0.len() <= #[trigger] child_slot(w, i) < out1.len(),
    ensures
        ({
            let p1 = p.push(my_idx);
            &&& forall|t: int| 1 <= t < p1.len() ==> branch_child_of(out1, p1, t, #[trigger] p1[t])
            &&& forall|qi: int| 0 <= qi < q1.len() ==> branch_child_of(out1, p1, p1.len() as int, (#[trigger] q1[qi]).2 as int)
        }),
{
    reveal(bfs_progress);
    let p1 = p.push(my_idx);
    let n = p.len() as int;
    assert(my_idx < out0.len());
    assert forall|j: int| 0 <= j < n implies p[j] < my_idx by {
        if n > 0 {
            assert(q0[0].2 > p[n - 1]);
            if j < n - 1 {
                assert(p[j] < p[n - 1]);
            }
        }
    }
    assert forall|t: int| 0 <= t < n implies out0[p[t]] == out1[p1[t]] by {
        assert(p1[t] == p[t]);
        assert(p[t] != my_idx);
    }
    // Every written slot but the root, and every queued slot, has a written parent.
    assert forall|t: int| 1 <= t < p1.len() implies branch_child_of(out1, p1, t, #[trigger] p1[t]) by {
        if t < n {
            assert(branch_child_of(out0, p, t, p[t]));
            let (tt, i) = choose|tt: int, i: u32|
                #![trigger child_slot(out0[p[tt]], i)]
                0 <= tt < t && i < 8 && spec_has_child(out0[p[tt]], i) && !spec_is_leaf(out0[p[tt]], i)
                    && child_slot(out0[p[tt]], i) == p[t];
            assert(p1[tt] == p[tt]);
            assert(out1[p1[tt]] == out0[p[tt]]);
            assert(child_slot(out1[p1[tt]], i) == p1[t]);
        } else {
            assert(t == n);
            assert(n > 0);
            assert(branch_child_of(out0, p, n, q0[0].2 as int));
            let (tt, i) = choose|tt: int, i: u32|
                #![trigger child_slot(out0[p[tt]], i)]
                0 <= tt < n && i < 8 && spec_has_child(out0[p[tt]], i) && !spec_is_leaf(out0[p[tt]], i)
                    && child_slot(out0[p[tt]], i) == q0[0].2;
            assert(p1[tt] == p[tt]);
            assert(out1[p1[tt]] == out0[p[tt]]);
            assert(child_slot(out1[p1[tt]], i) == p1[t]);
        }
    }
    assert forall|qi: int| 0 <= qi < q1.len() && p1.len() > 0 implies branch_child_of(out1, p1, p1.len() as int, (#[trigger] q1[qi]).2 as int) by {
        if qi < q0.len() - 1 {
            if n > 0 {
                assert(branch_child_of(out0, p, n, q0[qi + 1].2 as int));
                let (tt, i) = choose|tt: int, i: u32|
                    #![trigger child_slot(out0[p[tt]], i)]
                    0 <= tt < n && i < 8 && spec_has_child(out0[p[tt]], i) && !spec_is_leaf(out0[p[tt]], i)
                        && child_slot(out0[p[tt]], i) == q0[qi + 1].2;
                assert(p1[tt] == p[tt]);
                assert(out1[p1[tt]] == out0[p[tt]]);
                assert(child_slot(out1[p1[tt]], i) == q1[qi].2);
            } else {
                assert(q0.len() == 1);
            }
        } else {
            assert(branch_child_slot(w, q1[qi].2 as int));
            let i = choose|i: u32|
                i < 8 && spec_has_child(w, i) && !spec_is_leaf(w, i) && #[trigger] child_slot(w, i) == q1[qi].2;
            assert(p1[n] == my_idx);
            assert(out1[p1[n]] == w);
            assert(child_slot(out1[p1[n]], i) == q1[qi].2);
        }
    }

}

/// `bfs_progress` from its parts.
proof fn lemma_bfs_progress_intro(d: Seq<u32>, p: Seq<int>, q: Seq<QueueEntry>)
    requires
        p.len() > 0,
        forall|j: int| 0 <= j < p.len() ==> 0 <= #[trigger] p[j] < d.len(),
        forall|j: int, k: int| 0 <= j < k < p.len() ==> #[trigger] p[j] < #[trigger] p[k],
        forall|j: int| 0 <= j < p.len() ==> node_ptr(d[#[trigger] p[j]]) == 1 + children_before(d, p, j),
        d.len() == 1 + children_before(d, p, p.len() as int),
        p[0] == 0,
        forall|qi: int| 0 <= qi < q.len() ==> #[trigger] q[qi].2 > p[p.len() - 1],
        forall|qi: int| 0 <= qi < q.len() ==> #[trigger] q[qi].2 < d.len(),
        forall|qi: int, qj: int| 0 <= qi < qj < q.len() ==> #[trigger] q[qi].2 < #[trigger] q[qj].2,
        forall|j: int, i: u32|
            0 <= j < p.len() && i < 8 && spec_has_child(d[p[j]], i) && !spec_is_leaf(d[p[j]], i) ==> p.contains(
                #[trigger] child_slot(d[p[j]], i),
            ) || pending(q, child_slot(d[p[j]], i)),
        forall|t: int| 1 <= t < p.len() ==> branch_child_of(d, p, t, #[trigger] p[t]),
        forall|qi: int| 0 <= qi < q.len() ==> branch_child_of(d, p, p.len() as int, (#[trigger] q[qi]).2 as int),
    ensures
        bfs_progress(d, p, q),
{
    reveal(bfs_progress);
}

/// One node written: the branch slot `my_idx` at the front of the queue gets
/// its word `w`, whose `nch` children are appended; its branch children join
/// the queue.
proof fn lemma_bfs_step(
    out0: Seq<u32>,
    out1: Seq<u32>,
    p: Seq<int>,
    q0: Seq<QueueEntry>,
    q1: Seq<QueueEntry>,
    my_idx: int,
    w: u32,
)
    requires
        bfs_progress(out0, p, q0),
        q0.len() > 0,
        q0[0].2 == my_idx,
        node_ptr(w) == out0.len(),
        out1.len() == out0.len() + child_count(w),
        out1[my_idx] == w,
        forall|k: int| 0 <= k < out0.len() && k != my_idx ==> out1[k] == out0[k],
        q1.len() >= q0.len() - 1,
        forall|qi: int| 0 <= qi < q0.len() - 1 ==> q1[qi] == q0[qi + 1],
        forall|qi: int|
            q0.len() - 1 <= qi < q1.len() ==> branch_child_slot(w, (#[trigger] q1[qi]).2 as int),
        forall|i: u32|
            i < 8 && spec_has_child(w, i) && !spec_is_leaf(w, i) ==> pending(q1, #[trigger] child_slot(w, i)),
        forall|qi: int, qj: int| 0 <= qi < qj < q1.len() ==> #[trigger] q1[qi].2 < #[trigger] q1[qj].2,
        forall|i: u32| i < 8 && spec_has_child(w, i) ==> out0.len() <= #[trigger] child_slot(w, i) < out1.len(),
    ensures
        bfs_progress(out1, p.push(my_idx), q1),
{
    lemma_bfs_step_slots(out0, out1, p, q0, q1, my_idx, w);
    lemma_bfs_step_queue(out0, out1, p, q0, q1, my_idx, w);
    lemma_bfs_step_children(out0, out1, p, q0, q1, my_idx, w);
    lemma_bfs_step_parents(out0, out1, p, q0, q1, my_idx, w);
    lemma_bfs_progress_intro(out1, p.push(my_idx), q1);
}

/// A rank below the number of set bits belongs to one of them.
proof fn lemma_rank_inverse(cm: u32, jj: nat, n: nat)
    requires
        n <= 8,
        jj < count_bits_below(cm, n),
    ensures
        exists|i: u32| i < n && bit(cm, i) && #[trigger] count_bits_below(cm, i as nat) == jj,
    decreases n,
{
    if n > 0 {
        if jj < count_bits_below(cm, (n - 1) as nat) {
            lemma_rank_inverse(cm, jj, (n - 1) as nat);
            let i = choose|i: u32| i < n - 1 && bit(cm, i) && #[trigger] count_bits_below(cm, i as nat) == jj;
            assert(i < n && bit(cm, i) && count_bits_below(cm, i as nat) == jj);
        } else {
            let i = (n - 1) as u32;
            assert(bit(cm, i) && count_bits_below(cm, i as nat) == jj);
        }
    }
}

/// Once the queue is empty, the written branch slots give the breadth-first
/// layout.
proof fn lemma_bfs_done(flat: Seq<u32>, out: Seq<u32>, owners: Seq<NodeId>, p: Seq<int>, q: Seq<QueueEntry>)
    requires
        bfs_progress(out, p, q),
        q.len() == 0,
        owners.len() == out.len(),
        all_slots_done(flat, out, owners),
        forall|j: int|
            0 <= j < p.len() ==> 0 <= #[trigger] p[j] < owners.len() && (p[j] == 0 || value_of(flat, owners[p[j]])
                == BRANCH_MARKER),
    ensures
        bfs_layout(out, p),
{
    reveal(bfs_progress);
    assert forall|j: int, i: u32|
        0 <= j < p.len() && i < 8 && spec_has_child(out[p[j]], i) && !spec_is_leaf(out[p[j]], i) implies p.contains(
            #[trigger] child_slot(out[p[j]], i),
        ) by {
        if !p.contains(child_slot(out[p[j]], i)) {
            assert(pending(q, child_slot(out[p[j]], i)));
        }
    }
    assert forall|j: int, i: u32|
        0 <= j < p.len() && i < 8 && #[trigger] spec_is_leaf(out[p[j]], i) implies spec_has_child(out[p[j]], i) by {
        let k = p[j];
        assert(slot_done(flat, out, owners, k));
        assert(branch_word_ok(flat, out, owners, owners[k], out[k]));
        assert(child_slot_ok(flat, owners, owners[k], out[k], i));
    }
}

/// The node word `w` written for the slot `my_idx` at the front of the queue,
/// from the child and leaf masks and the children `vc` found below it: the
/// breadth-first progress goes on.
proof fn lemma_bfs_node(
    out0: Seq<u32>,
    out1: Seq<u32>,
    p: Seq<int>,
    q0: Seq<QueueEntry>,
    q1: Seq<QueueEntry>,
    my_idx: int,
    w: u32,
    cm: u32,
    lm: u32,
    pointer: u32,
    vc: Seq<SvoChild>,
)
    requires
        bfs_progress(out0, p, q0),
        q0.len() > 0,
        q0[0].2 == my_idx,
        cm < 256,
        lm < 256,
        pointer < 0x10000,
        pointer == out0.len(),
        w == (cm << 24u32) | (lm << 16u32) | pointer,
        vc.len() == count_bits_below(cm, 8),
        forall|i: u32|
            i < 8 && bit(cm, i) ==> (#[trigger] vc[count_bits_below(cm, i as nat) as int]).is_leaf == bit(lm, i),
        out1.len() == out0.len() + vc.len(),
        out1[my_idx] == w,
        forall|k: int| 0 <= k < out0.len() && k != my_idx ==> out1[k] == out0[k],
        q1.len() >= q0.len() - 1,
        forall|qi: int| 0 <= qi < q0.len() - 1 ==> q1[qi] == q0[qi + 1],
        forall|qi: int|
            q0.len() - 1 <= qi < q1.len() ==> out0.len() <= (#[trigger] q1[qi]).2 < out0.len() + vc.len()
                && !vc[q1[qi].2 - out0.len()].is_leaf,
        forall|jj: int| 0 <= jj < vc.len() && !(#[trigger] vc[jj]).is_leaf ==> pending(q1, out0.len() + jj),
        forall|qi: int, qj: int| 0 <= qi < qj < q1.len() ==> #[trigger] q1[qi].2 < #[trigger] q1[qj].2,
    ensures
        bfs_progress(out1, p.push(my_idx), q1),
{
    reveal(bfs_progress);
    assert forall|i: u32| i < 8 implies (#[trigger] spec_has_child(w, i)) == bit(cm, i)
        && spec_is_leaf(w, i) == bit(lm, i) && w & 0xFFFFu32 == pointer && child_byte(w) == cm by {
        lemma_node_word_bits(cm, lm, pointer, i);
    }
    lemma_node_word_bits(cm, lm, pointer, 0);
    assert(child_count(w) == vc.len());
    assert forall|i: u32| i < 8 implies #[trigger] child_rank(w, i) == count_bits_below(cm, i as nat) by {}
    assert forall|i: u32|
        i < 8 && spec_has_child(w, i) && !spec_is_leaf(w, i) implies pending(q1, #[trigger] child_slot(w, i)) by {
        lemma_count_bits_below_bit(cm, i as nat, 8);
        let jj = count_bits_below(cm, i as nat) as int;
        assert(!vc[jj].is_leaf);
    }
    assert forall|i: u32| i < 8 && spec_has_child(w, i) implies out0.len() <= #[trigger] child_slot(w, i) < out1.len() by {
        lemma_count_bits_below_bit(cm, i as nat, 8);
    }
    assert forall|qi: int| q0.len() - 1 <= qi < q1.len() implies branch_child_slot(w, (#[trigger] q1[qi]).2 as int) by {
        let jj = (q1[qi].2 - out0.len()) as nat;
        lemma_rank_inverse(cm, jj, 8);
        let i = choose|i: u32| i < 8 && bit(cm, i) && #[trigger] count_bits_below(cm, i as nat) == jj;
        assert(vc[count_bits_below(cm, i as nat) as int].is_leaf == bit(lm, i));
        assert(child_slot(w, i) == q1[qi].2);
    }
    lemma_bfs_step(out0, out1, p, q0, q1, my_idx, w);
}

/// Scanning the root of a chunk whose root value `m` is no branch finds
/// eight leaves of `m`, or no child where `m` is air.
proof fn lemma_uniform_root_scan(flat: Seq<u32>, m: u32, cm: u32, lm: u32, vc: Seq<SvoChild>)
    requires
        m != BRANCH_MARKER,
        node_value(flat, 0, 0, 0, 0) == m,
        cm < 256,
        lm < 256,
        vc.len() == count_bits_below(cm, 8),
        forall|i: u32|
            i < 8 ==> {
                let cv = child_value(flat, 0, 0, 0, 0, i as int);
                &&& #[trigger] bit(cm, i) == (cv != AIR_MARKER)
                &&& bit(lm, i) == (cv != AIR_MARKER && cv != BRANCH_MARKER)
                &&& cv != AIR_MARKER ==> {
                    let c = vc[count_bits_below(cm, i as nat) as int];
                    &&& c.payload == cv
                    &&& c.is_leaf == (cv != BRANCH_MARKER)
                }
            },
    ensures
        m == AIR_MARKER ==> cm == 0 && lm == 0 && vc.len() == 0,
        m != AIR_MARKER ==> cm == 0xFF && lm == 0xFF && vc.len() == 8,
        forall|k: int| 0 <= k < vc.len() ==> (#[trigger] vc[k]).is_leaf && vc[k].payload == m,
{
    assert(child_value(flat, 0, 0, 0, 0, 0) == m);
    assert(child_value(flat, 0, 0, 0, 0, 1) == m);
    assert(child_value(flat, 0, 0, 0, 0, 2) == m);
    assert(child_value(flat, 0, 0, 0, 0, 3) == m);
    assert(child_value(flat, 0, 0, 0, 0, 4) == m);
    assert(child_value(flat, 0, 0, 0, 0, 5) == m);
    assert(child_value(flat, 0, 0, 0, 0, 6) == m);
    assert(child_value(flat, 0, 0, 0, 0, 7) == m);
    assert forall|i: u32| i < 8 implies #[trigger] bit(cm, i) == (m != AIR_MARKER) && bit(lm, i) == (m
        != AIR_MARKER) by {
        assert(child_value(flat, 0, 0, 0, 0, i as int) == m);
    }
    let b = m != AIR_MARKER;
    assert(bit(cm, 0) == b && bit(cm, 1) == b && bit(cm, 2) == b && bit(cm, 3) == b);
    assert(bit(cm, 4) == b && bit(cm, 5) == b && bit(cm, 6) == b && bit(cm, 7) == b);
    assert(bit(lm, 0) == b && bit(lm, 1) == b && bit(lm, 2) == b && bit(lm, 3) == b);
    assert(bit(lm, 4) == b && bit(lm, 5) == b && bit(lm, 6) == b && bit(lm, 7) == b);
    assert(cm == if b { 0xFFu32 } else { 0u32 }) by (bit_vector)
        requires
            cm < 256,
            bit(cm, 0) == b && bit(cm, 1) == b && bit(cm, 2) == b && bit(cm, 3) == b,
            bit(cm, 4) == b && bit(cm, 5) == b && bit(cm, 6) == b && bit(cm, 7) == b,
    ;
    assert(lm == if b { 0xFFu32 } else { 0u32 }) by (bit_vector)
        requires
            lm < 256,
            bit(lm, 0) == b && bit(lm, 1) == b && bit(lm, 2) == b && bit(lm, 3) == b,
            bit(lm, 4) == b && bit(lm, 5) == b && bit(lm, 6) == b && bit(lm, 7) == b,
    ;
    if b {
        lemma_count_full(8);
        assert forall|k: int| 0 <= k < vc.len() implies (#[trigger] vc[k]).is_leaf && vc[k].payload == m by {
            lemma_count_full(k as nat);
            assert(child_value(flat, 0, 0, 0, 0, (k as u32) as int) == m);
            assert(bit(cm, k as u32));
        }
    } else {
        assert(count_bits_below(0u32, 8) == 0) by {
            reveal_with_fuel(count_bits_below, 9);
        }
    }
}

/// Writes the compressed pyramid as a sparse voxel octree in breadth-first
/// order: slot 0 is the root word, and the children of every branch word
/// occupy consecutive slots from its pointer on.
#[verifier::spinoff_prover]
#[verifier::rlimit(100)]
fn serialize_svo_bfs(pyramid: &[Vec<u32>; 6], volumes: &[i32; 6]) -> (out: Vec<u32>)
    requires
        volumes_ok(volumes@),
        pyramid_shape(pyramid@),
        forall|l: int| 0 <= l <= 5 ==> level_built(pyramid@, pyramid@[5]@, l),
        no_branch_voxels(pyramid@[5]@),
    ensures
        1 <= out@.len() <= 37449,
        forall|x: int, y: int, z: int|
            in_local(x, y, z) ==> #[trigger] svo_voxel(out@, x, y, z) == pyramid@[5]@[local_index(
                x,
                y,
                z,
            )],
        chunk_tree_ok(out@),
        pruned(out@, out@[0], 0),
        value_of(pyramid@[5]@, (0int, 0int, 0int, 0int)) != BRANCH_MARKER ==> out@ == uniform_svo(
            value_of(pyramid@[5]@, (0int, 0int, 0int, 0int)),
        ),
        exists|inner: Seq<int>| #[trigger] bfs_layout(out@, inner),
{
    let ghost flat = pyramid@[5]@;
    let mut out_data: Vec<u32> = Vec::with_capacity(1024);
    out_data.push(0);
    let ghost mut owners: Seq<NodeId> = seq![(0int, 0int, 0int, 0int)];

    let mut queue: VecDeque<QueueEntry> = VecDeque::new();
    queue.push_back((0, V3i { x: 0, y: 0, z: 0 }, 0));
    let ghost root_val = value_of(flat, (0int, 0int, 0int, 0int));
    let ghost mut processed: Seq<int> = Seq::empty();
    proof {
        assert(queue@ =~= seq![(0usize, (V3i { x: 0, y: 0, z: 0 }), 0usize)]);
        assert(out_data@ =~= seq![0u32]);
        assert(queue@[0].2 == 0);
        assert(pending(queue@, 0));
        assert(queue@.drop_first() =~= Seq::<QueueEntry>::empty());
        assert(queue_weight(queue@.drop_first()) == 0);
        assert(bfs_progress(out_data@, processed, queue@)) by {
            reveal(bfs_progress);
        }
    }

    loop
        invariant
            volumes_ok(volumes@),
            pyramid_shape(pyramid@),
            forall|l: int| 0 <= l <= 5 ==> level_built(pyramid@, flat, l),
            flat == pyramid@[5]@,
            no_branch_voxels(flat),
            owners.len() == out_data@.len(),
            owners_ok(owners),
            queue_ok(flat, queue@, owners),
            forall|k: int|
                0 <= k < out_data@.len() ==> pending(queue@, k) || slot_done(
                    flat,
                    out_data@,
                    owners,
                    k,
                ),
            out_data@.len() + 8 * queue_weight(queue@) <= 37449,
            root_val == value_of(flat, (0int, 0int, 0int, 0int)),
            root_val != BRANCH_MARKER ==> (queue@.len() == 1 && queue@[0] == (
                0usize,
                (V3i { x: 0, y: 0, z: 0 }),
                0usize,
            ) && out_data@ == seq![0u32]) || (queue@.len() == 0 && out_data@ == uniform_svo(root_val)),
            bfs_progress(out_data@, processed, queue@),
            forall|j: int|
                0 <= j < processed.len() ==> 0 <= #[trigger] processed[j] < owners.len() && (processed[j] == 0
                    || value_of(flat, owners[processed[j]]) == BRANCH_MARKER),
        ensures
            bfs_layout(out_data@, processed),
            root_val != BRANCH_MARKER ==> out_data@ == uniform_svo(root_val),
            queue@.len() == 0,
            owners.len() == out_data@.len(),
            owners_ok(owners),
            all_slots_done(flat, out_data@, owners),
            out_data@.len() <= 37449,
        decreases queue_weight(queue@),
    {
        let ghost q0 = queue@;
        let ghost out0 = out_data@;
        let ghost owners0 = owners;
        proof {
            lemma_queue_weight_nonneg(q0);
        }
        let front = queue.pop_front();
        let (level, pos, my_idx) = match front {
            Some(e) => e,
            None => {
                proof {
                    assert forall|k: int| 0 <= k < out_data@.len() implies #[trigger] slot_done(
                        flat,
                        out_data@,
                        owners,
                        k,
                    ) by {
                        if pending(queue@, k) {
                            let qi = choose|qi: int| 0 <= qi < queue@.len() && #[trigger] queue@[qi].2 == k;
                        }
                    }
                    lemma_bfs_done(flat, out_data@, owners, processed, queue@);
                }
                break;
            },
        };
        let ghost rest = queue@;
        proof {
            assert(rest =~= q0.drop_first());
            assert(q0[0] == (level, pos, my_idx));
            lemma_queue_weight_nonneg(rest);
        }

        let child_level = level + 1;
        let child_volume = volumes[child_level];
        let ghost node: NodeId = (level as int, pos.x as int, pos.y as int, pos.z as int);
        assert(owners[my_idx as int] == node);

        let (child_mask, leaf_mask, valid_children) = scan_children_for_serialization(
            pyramid,
            child_level,
            child_volume,
            &pos,
        );

        let pointer = out_data.len() as u32;
        proof {
            if root_val != BRANCH_MARKER {
                lemma_uniform_root_scan(flat, root_val, child_mask, leaf_mask, valid_children@);
            }
        }
        let node_data = (child_mask << 24) | (leaf_mask << 16) | pointer;
        proof {
            if root_val != BRANCH_MARKER {
                if root_val == AIR_MARKER {
                    assert(((0u32 << 24u32) | (0u32 << 16u32) | 1u32) == 1u32) by (bit_vector);
                } else {
                    assert(((0xFFu32 << 24u32) | (0xFFu32 << 16u32) | 1u32) == 0xFFFF_0001u32) by (bit_vector);
                }
                assert(node_data == uniform_svo(root_val)[0]);
            }
        }
        out_data[my_idx] = node_data;
        let ghost base = out0.len();
        let ghost cost = 1 + 8 * level_weight(child_level as int);
        let nchildren = valid_children.len();
        proof {
            lemma_count_bits_le(child_mask, 8);
            assert(8 * level_weight(level as int) == 8 * cost);
            assert(nchildren * cost <= 8 * cost) by (nonlinear_arith)
                requires
                    nchildren <= 8,
                    cost >= 1,
            ;
        }

        for j in 0..nchildren
            invariant
                volumes_ok(volumes@),
                pyramid_shape(pyramid@),
                forall|l: int| 0 <= l <= 5 ==> level_built(pyramid@, flat, l),
                flat == pyramid@[5]@,
                no_branch_voxels(flat),
                level <= 4,
                child_level == level + 1,
                cost == 1 + 8 * level_weight(child_level as int),
                nchildren == valid_children@.len(),
                nchildren <= 8,
                base == pointer,
                base < 0x10000,
                my_idx < base,
                node == owners0[my_idx as int],
                owners0.len() == base,
                out0.len() == base,
                out_data@.len() == base + j,
                owners.len() == out_data@.len(),
                forall|k: int| 0 <= k < base ==> owners[k] == owners0[k],
                forall|k: int| 0 <= k < base && k != my_idx ==> out_data@[k] == out0[k],
                out_data@[my_idx as int] == node_data,
                forall|jj: int|
                    0 <= jj < j ==> {
                        let c = #[trigger] valid_children@[jj];
                        &&& owners[base + jj] == (
                            child_level as int,
                            c.pos.x as int,
                            c.pos.y as int,
                            c.pos.z as int,
                        )
                        &&& c.is_leaf ==> out_data@[base + jj] == c.payload
                        &&& !c.is_leaf ==> pending(queue@, base + jj)
                    },
                forall|k: int|
                    0 <= k < valid_children@.len() ==> {
                        let c = #[trigger] valid_children@[k];
                        &&& in_level(
                            child_level as int,
                            c.pos.x as int,
                            c.pos.y as int,
                            c.pos.z as int,
                        )
                        &&& c.payload == node_value(
                            flat,
                            child_level as nat,
                            c.pos.x as int,
                            c.pos.y as int,
                            c.pos.z as int,
                        )
                        &&& c.payload != AIR_MARKER
                        &&& c.is_leaf == (c.payload != BRANCH_MARKER)
                    },
                owners_ok(owners),
                queue_ok(flat, queue@, owners),
                queue@.len() >= rest.len(),
                forall|qi: int| 0 <= qi < rest.len() ==> queue@[qi] == rest[qi],
                forall|qi: int| 0 <= qi < queue@.len() ==> #[trigger] queue@[qi].2 < out_data@.len(),
                out_data@.len() + 8 * queue_weight(queue@) + (nchildren - j) * cost <= 37449,
                forall|qi: int|
                    rest.len() <= qi < queue@.len() ==> base <= (#[trigger] queue@[qi]).2 < base + j
                        && !valid_children@[queue@[qi].2 - base].is_leaf,
                root_val == value_of(flat, (0int, 0int, 0int, 0int)),
                root_val != BRANCH_MARKER ==> {
                    &&& rest.len() == 0
                    &&& queue@.len() == 0
                    &&& out_data@ == seq![node_data] + Seq::new(j as nat, |k: int| root_val)
                    &&& forall|k: int|
                        0 <= k < nchildren ==> (#[trigger] valid_children@[k]).is_leaf
                            && valid_children@[k].payload == root_val
                    &&& node_data == uniform_svo(root_val)[0]
                    &&& nchildren + 1 == uniform_svo(root_val).len()
                },
                queue_weight(queue@) <= queue_weight(rest) + j * level_weight(child_level as int),
        {
            let ghost q1 = queue@;
            let ghost out1 = out_data@;
            let ghost owners1 = owners;
            let child_out_idx = out_data.len();
            let is_leaf_child = valid_children[j].is_leaf;
            if is_leaf_child {
                out_data.push(valid_children[j].payload);
            } else {
                out_data.push(0);
                queue.push_back((child_level, valid_children[j].pos, child_out_idx));
            }
            proof {
                if root_val != BRANCH_MARKER {
                    assert(out_data@ =~= seq![node_data] + Seq::new((j + 1) as nat, |k: int| root_val));
                }
                let c = valid_children@[j as int];
                owners = owners.push((child_level as int, c.pos.x as int, c.pos.y as int, c.pos.z as int));
                assert(((nchildren - j) * cost) == ((nchildren - (j + 1)) * cost) + cost) by (nonlinear_arith);
                assert((j + 1) * level_weight(child_level as int) == j * level_weight(child_level as int) + level_weight(child_level as int)) by (nonlinear_arith);
                if !is_leaf_child {
                    lemma_queue_weight_push(q1, (child_level, c.pos, child_out_idx));
                    assert(queue@[q1.len() as int].2 == child_out_idx);
                    assert(pending(queue@, child_out_idx as int));
                    if child_level == 5 {
                        assert(flat[local_index(c.pos.x as int, c.pos.y as int, c.pos.z as int)] != BRANCH_MARKER);
                    }
                }
                assert forall|jj: int| 0 <= jj < j && !(#[trigger] valid_children@[jj]).is_leaf implies pending(queue@, base + jj) by {
                    if !valid_children@[jj].is_leaf {
                        assert(pending(q1, base + jj));
                        let qi = choose|qi: int| 0 <= qi < q1.len() && #[trigger] q1[qi].2 == base + jj;
                        assert(queue@[qi] == q1[qi]);
                    }
                }
                assert forall|k: int| 0 <= k < owners.len() implies {
                    let n = #[trigger] owners[k];
                    &&& 0 <= n.0 <= 5
                    &&& in_level(n.0, n.1, n.2, n.3)
                    &&& k != 0 ==> n.0 >= 1
                } by {
                    if k < out1.len() {
                        assert(owners[k] == owners1[k]);
                    }
                }
            }
        }
        proof {
            assert forall|i: u32| i < 8 && bit(child_mask, i) implies (#[trigger] valid_children@[count_bits_below(
                child_mask,
                i as nat,
            ) as int]).is_leaf == bit(leaf_mask, i) by {
                let cv = child_value(flat, node.0 as nat, node.1, node.2, node.3, i as int);
                assert(bit(child_mask, i) == (cv != AIR_MARKER));
            }
            assert(queue_ok(flat, queue@, owners));
            assert forall|qi: int| 0 <= qi < q0.len() - 1 implies queue@[qi] == q0[qi + 1] by {
                assert(queue@[qi] == rest[qi]);
            }
            lemma_bfs_node(out0, out_data@, processed, q0, queue@, my_idx as int, node_data, child_mask, leaf_mask, pointer, valid_children@);
            assert(q0[0].2 == my_idx);
            processed = processed.push(my_idx as int);
            assert forall|j: int| 0 <= j < processed.len() implies 0 <= #[trigger] processed[j] < owners.len() && (
            processed[j] == 0 || value_of(flat, owners[processed[j]]) == BRANCH_MARKER) by {
                if j < processed.len() - 1 {
                    assert(processed[j] < owners0.len());
                    assert(owners[processed[j]] == owners0[processed[j]]);
                }
            }
        }
        proof {
            assert(nchildren * level_weight(child_level as int) <= 8 * level_weight(
                child_level as int,
            )) by (nonlinear_arith)
                requires
                    nchildren <= 8,
                    level_weight(child_level as int) >= 0,
            ;
            let w = node_data;
            assert forall|i: u32| i < 8 implies #[trigger] child_slot_ok(
                flat,
                owners,
                node,
                w,
                i,
            ) by {
                lemma_node_word_bits(child_mask, leaf_mask, pointer, i);
                let cv = child_value(flat, node.0 as nat, node.1, node.2, node.3, i as int);
                assert(bit(child_mask, i) == (cv != AIR_MARKER));
                if cv != AIR_MARKER {
                    let r = count_bits_below(child_mask, i as nat) as int;
                    lemma_count_bits_below_bit(child_mask, i as nat, 8);
                    let c = valid_children@[r];
                    assert(owners[base + r] == (
                        child_level as int,
                        c.pos.x as int,
                        c.pos.y as int,
                        c.pos.z as int,
                    ));
                }
            }
            lemma_node_word_bits(child_mask, leaf_mask, pointer, 0);
            assert(queue_weight(q0) == level_weight(level as int) + queue_weight(rest));
            assert(level_weight(level as int) == 1 + 8 * level_weight(child_level as int));
            assert(queue_weight(queue@) < queue_weight(q0));
            lemma_queue_weight_nonneg(queue@);
            assert(branch_word_ok(flat, out_data@, owners, node, w));
            assert(slot_done(flat, out_data@, owners, my_idx as int));
            assert forall|k: int| 0 <= k < out_data@.len() implies pending(queue@, k) || slot_done(
                flat,
                out_data@,
                owners,
                k,
            ) by {
                if k < base && k != my_idx {
                    if pending(q0, k) {
                        let qi = choose|qi: int| 0 <= qi < q0.len() && #[trigger] q0[qi].2 == k;
                        assert(qi != 0);
                        assert(queue@[qi - 1] == rest[qi - 1]);
                        assert(queue@[qi - 1].2 == k);
                    } else {
                        lemma_slot_done_stable(flat, out0, owners0, out_data@, owners, k);
                    }
                } else if k >= base {
                    let c = valid_children@[k - base];
                    if c.is_leaf {
                        assert(owners[k] == (
                            child_level as int,
                            c.pos.x as int,
                            c.pos.y as int,
                            c.pos.z as int,
                        ));
                    }
                }
            }
        }
    }
    proof {
        assert forall|x: int, y: int, z: int| in_local(x, y, z) implies #[trigger] svo_voxel(
            out_data@,
            x,
            y,
            z,
        ) == flat[local_index(x, y, z)] by {
            lemma_decode(flat, out_data@, owners, 0, x, y, z);
        }
        lemma_tree_shape(flat, out_data@, owners, 0);
        lemma_pruned(flat, out_data@, owners, 0);
    }
    out_data
}

} // verus!

verus! {

/// A copy of the voxels.
fn copy_voxels(flat_data: &[u32]) -> (v: Vec<u32>)
    ensures
        v@ == flat_data@,
{
    let mut v: Vec<u32> = Vec::with_capacity(flat_data.len());
    for i in 0..flat_data.len()
        invariant
            v@ == flat_data@.subrange(0, i as int),
    {
        v.push(flat_data[i]);
    }
    assert(v@ =~= flat_data@);
    v
}

/// Compresses a 32x32x32 chunk (flat layout `x + 32 y + 1024 z`, 0 = air)
/// into a sparse voxel octree: every node word is `0xCCLLPPPP`, with the
/// child byte `CC`, the leaf byte `LL` and the pointer `PPPP` to the first of
/// its consecutive children; a leaf child slot holds the material itself.
/// Looking a voxel up in the result gives back its material; air is never
/// stored, and eight equal solid octants below the root are one leaf. A
/// chunk of one material is only the root: `[1]` for air, else the root
/// `0xFFFF0001` and eight leaves. The nodes are laid out breadth first
/// (`bfs_layout`).
pub fn build_chunk(flat_data: &[u32]) -> (svo: Vec<u32>)
    requires
        flat_data@.len() >= 32768,
        no_branch_voxels(flat_data@),
    ensures
        1 <= svo@.len() <= 37449,
        forall|x: int, y: int, z: int|
            in_local(x, y, z) ==> #[trigger] svo_voxel(svo@, x, y, z) == flat_data@[local_index(
                x,
                y,
                z,
            )],
        chunk_tree_ok(svo@),
        pruned(svo@, svo@[0], 0),
        uniform_chunk(flat_data@, flat_data@[0]) ==> svo@ == uniform_svo(flat_data@[0]),
        exists|inner: Seq<int>| #[trigger] bfs_layout(svo@, inner),
{
    let level_volume: [i32; 6] = [1, 2, 4, 8, 16, 32];

    let mut pyramid: [Vec<u32>; 6] = [
        vec![0; 1],
        vec![0; 8],
        vec![0; 64],
        vec![0; 512],
        vec![0; 4096],
        copy_voxels(flat_data),
    ];
    assert(level_volume@ =~= seq![1i32, 2i32, 4i32, 8i32, 16i32, 32i32]);
    assert(pyramid@[5]@ == flat_data@);
    assert(pyramid_shape(pyramid@));

    // Step 1: Compress the volume from the bottom up
    build_mipmap_pyramid(&mut pyramid, &level_volume);

    proof {
        if uniform_chunk(flat_data@, flat_data@[0]) {
            assert(in_local(0, 0, 0));
            assert(local_index(0, 0, 0) == 0);
            lemma_uniform_nodes(flat_data@, flat_data@[0], 0, 0, 0, 0);
        }
    }
    // Step 2: Write the compressed pyramid into the final 1D SVO format
    serialize_svo_bfs(&pyramid, &level_volume)
}

} // verus!

verus! {

/// Every plane of the grid has the height of the first, and every row the
/// depth of the first row.
pub open spec fn grid_rectangular(data: Seq<Vec<Vec<u32>>>) -> bool {
    &&& forall|x: int| 0 <= x < grid_width(data) ==> #[trigger] data[x]@.len() >= grid_height(data)
    &&& forall|x: int, y: int|
        0 <= x < grid_width(data) && 0 <= y < grid_height(data) ==> #[trigger] data[x]@[y]@.len()
            >= grid_depth(data)
}

/// No voxel of the grid holds the branch marker.
pub open spec fn grid_no_branch(data: Seq<Vec<Vec<u32>>>) -> bool {
    forall|x: int, y: int, z: int|
        0 <= x < grid_width(data) && 0 <= y < grid_height(data) && 0 <= z < grid_depth(data)
            ==> #[trigger] data[x]@[y]@[z] != BRANCH_MARKER
}

/// The number of 32-wide chunks that cover `n` voxels.
pub open spec fn chunk_count(n: int) -> int {
    (n + 31) / 32
}

/// The chunk position `c` lies in the grid of chunks that covers the data.
pub open spec fn chunk_in_grid(data: Seq<Vec<Vec<u32>>>, c: V3i) -> bool {
    &&& 0 <= c.x < chunk_count(grid_width(data))
    &&& 0 <= c.y < chunk_count(grid_height(data))
    &&& 0 <= c.z < chunk_count(grid_depth(data))
}

/// Chunk `c` holds some voxel that is not air.
pub open spec fn chunk_nonempty(data: Seq<Vec<Vec<u32>>>, c: V3i) -> bool {
    exists|lx: int, ly: int, lz: int|
        in_local(lx, ly, lz) && #[trigger] chunk_voxel(data, c, lx, ly, lz) != AIR_MARKER
}

/// Chunk position `a` comes before `b` in x-major order.
pub open spec fn pos_before(a: V3i, b: V3i) -> bool {
    a.x < b.x || (a.x == b.x && a.y < b.y) || (a.x == b.x && a.y == b.y && a.z < b.z)
}

/// The entry holds the chunk at its key: corners 32 voxels apart, and an
/// octree that gives back every voxel of that chunk.
pub open spec fn chunk_entry_ok(data: Seq<Vec<Vec<u32>>>, e: (V3i, Chunk)) -> bool {
    &&& e.1.min_pos.x == e.0.x * 32 && e.1.min_pos.y == e.0.y * 32 && e.1.min_pos.z == e.0.z * 32
    &&& e.1.max_pos.x == (e.0.x + 1) * 32 && e.1.max_pos.y == (e.0.y + 1) * 32 && e.1.max_pos.z == (
    e.0.z + 1) * 32
    &&& 1 <= e.1.data@.len() <= 37449
    &&& chunk_tree_ok(e.1.data@)
    &&& pruned(e.1.data@, e.1.data@[0], 0)
    &&& exists|inner: Seq<int>| #[trigger] bfs_layout(e.1.data@, inner)
    &&& forall|lx: int, ly: int, lz: int|
        in_local(lx, ly, lz) ==> #[trigger] svo_voxel(e.1.data@, lx, ly, lz) == chunk_voxel(
            data,
            e.0,
            lx,
            ly,
            lz,
        )
}

proof fn lemma_chunk_reads_ok(data: Seq<Vec<Vec<u32>>>, c: V3i)
    requires
        grid_rectangular(data),
        c.x >= 0 && c.y >= 0 && c.z >= 0,
    ensures
        chunk_reads_ok(data, c),
{
    assert forall|lx: int, ly: int, lz: int|
        #![trigger chunk_voxel(data, c, lx, ly, lz)]
        in_local(lx, ly, lz) && in_grid(
            data,
            global_coord(c.x, lx),
            global_coord(c.y, ly),
            global_coord(c.z, lz),
        ) implies {
        let gx = global_coord(c.x, lx);
        let gy = global_coord(c.y, ly);
        let gz = global_coord(c.z, lz);
        &&& 0 <= gx && 0 <= gy && 0 <= gz
        &&& gy < data[gx]@.len()
        &&& gz < data[gx]@[gy]@.len()
    } by {
        let gx = global_coord(c.x, lx);
        let gy = global_coord(c.y, ly);
        assert(data[gx]@.len() >= grid_height(data));
        assert(data[gx]@[gy]@.len() >= grid_depth(data));
    }
}

/// The flat voxels of a chunk of a grid without branch markers hold none.
proof fn lemma_flat_no_branch(data: Seq<Vec<Vec<u32>>>, c: V3i, flat: Seq<u32>)
    requires
        grid_no_branch(data),
        c.x >= 0 && c.y >= 0 && c.z >= 0,
        flat.len() == 32768,
        forall|lx: int, ly: int, lz: int|
            in_local(lx, ly, lz) ==> flat[local_index(lx, ly, lz)] == #[trigger] chunk_voxel(
                data,
                c,
                lx,
                ly,
                lz,
            ),
    ensures
        no_branch_voxels(flat),
{
    assert forall|x: int, y: int, z: int| in_local(x, y, z) implies #[trigger] flat[local_index(
        x,
        y,
        z,
    )] != BRANCH_MARKER by {
        let v = chunk_voxel(data, c, x, y, z);
        if in_grid(data, global_coord(c.x, x), global_coord(c.y, y), global_coord(c.z, z)) {
            assert(data[global_coord(c.x, x)]@[global_coord(c.y, y)]@[global_coord(c.z, z)]
                != BRANCH_MARKER);
        }
    }
}

/// Splits a voxel grid (`data[x][y][z]`, 0 = air) into 32x32x32 chunks and
/// compresses each chunk that holds some material into a sparse voxel
/// octree. The entries come in x-major order of chunk position; empty chunks
/// get none.
#[verifier::spinoff_prover]
pub fn to_chunks(data: &[Vec<Vec<u32>>]) -> (chunks: ChunkMap)
    requires
        grid_width(data@) <= 16777216,
        grid_height(data@) <= 16777216,
        grid_depth(data@) <= 16777216,
        grid_rectangular(data@),
        grid_no_branch(data@),
    ensures
        forall|i: int|
            0 <= i < chunks@.len() ==> {
                &&& chunk_entry_ok(data@, #[trigger] chunks@[i])
                &&& chunk_in_grid(data@, chunks@[i].0)
                &&& chunk_nonempty(data@, chunks@[i].0)
            },
        forall|c: V3i|
            chunk_in_grid(data@, c) && #[trigger] chunk_nonempty(data@, c) ==> has_key(chunks@, c),
        forall|i: int, j: int|
            0 <= i < j < chunks@.len() ==> pos_before(#[trigger] chunks@[i].0, #[trigger] chunks@[j].0),
{
    let width = data.len();
    let height = if width > 0 {
        data[0].len()
    } else {
        0
    };
    let depth = if height > 0 {
        data[0][0].len()
    } else {
        0
    };

    let mut chunks = ChunkMap::new();

    // Group the chunk counts into a V3i for cleaner management
    let chunk_counts = V3i {
        x: ((width + 31) / 32) as i32,
        y: ((height + 31) / 32) as i32,
        z: ((depth + 31) / 32) as i32,
    };
    let ghost d = data@;
    assert(chunk_counts.x == chunk_count(grid_width(d)));
    assert(chunk_counts.y == chunk_count(grid_height(d)));
    assert(chunk_counts.z == chunk_count(grid_depth(d)));

    for cx in 0..chunk_counts.x
        invariant
            d == data@,
            grid_width(d) <= 16777216 && grid_height(d) <= 16777216 && grid_depth(d) <= 16777216,
            grid_rectangular(d),
            grid_no_branch(d),
            chunk_counts.x == chunk_count(grid_width(d)),
            chunk_counts.y == chunk_count(grid_height(d)),
            chunk_counts.z == chunk_count(grid_depth(d)),
            forall|i: int|
                0 <= i < chunks@.len() ==> {
                    &&& chunk_entry_ok(d, #[trigger] chunks@[i])
                    &&& chunk_in_grid(d, chunks@[i].0)
                    &&& chunk_nonempty(d, chunks@[i].0)
                    &&& pos_before(chunks@[i].0, V3i { x: cx, y: 0, z: 0 })
                },
            forall|c: V3i|
                chunk_in_grid(d, c) && #[trigger] chunk_nonempty(d, c) && pos_before(
                    c,
                    V3i { x: cx, y: 0, z: 0 },
                ) ==> has_key(chunks@, c),
            forall|i: int, j: int|
                0 <= i < j < chunks@.len() ==> pos_before(
                    #[trigger] chunks@[i].0,
                    #[trigger] chunks@[j].0,
                ),
    {
        for cy in 0..chunk_counts.y
            invariant
                0 <= cx < chunk_counts.x,
                d == data@,
                grid_width(d) <= 16777216 && grid_height(d) <= 16777216 && grid_depth(d)
                    <= 16777216,
                grid_rectangular(d),
                grid_no_branch(d),
                chunk_counts.x == chunk_count(grid_width(d)),
                chunk_counts.y == chunk_count(grid_height(d)),
                chunk_counts.z == chunk_count(grid_depth(d)),
                forall|i: int|
                    0 <= i < chunks@.len() ==> {
                        &&& chunk_entry_ok(d, #[trigger] chunks@[i])
                        &&& chunk_in_grid(d, chunks@[i].0)
                        &&& chunk_nonempty(d, chunks@[i].0)
                        &&& pos_before(chunks@[i].0, V3i { x: cx, y: cy, z: 0 })
                    },
                forall|c: V3i|
                    chunk_in_grid(d, c) && #[trigger] chunk_nonempty(d, c) && pos_before(
                        c,
                        V3i { x: cx, y: cy, z: 0 },
                    ) ==> has_key(chunks@, c),
                forall|i: int, j: int|
                    0 <= i < j < chunks@.len() ==> pos_before(
                        #[trigger] chunks@[i].0,
                        #[trigger] chunks@[j].0,
                    ),
        {
            for cz in 0..chunk_counts.z
                invariant
                    0 <= cx < chunk_counts.x,
                    0 <= cy < chunk_counts.y,
                    d == data@,
                    grid_width(d) <= 16777216 && grid_height(d) <= 16777216 && grid_depth(d)
                        <= 16777216,
                    grid_rectangular(d),
                    grid_no_branch(d),
                    chunk_counts.x == chunk_count(grid_width(d)),
                    chunk_counts.y == chunk_count(grid_height(d)),
                    chunk_counts.z == chunk_count(grid_depth(d)),
                    forall|i: int|
                        0 <= i < chunks@.len() ==> {
                            &&& chunk_entry_ok(d, #[trigger] chunks@[i])
                            &&& chunk_in_grid(d, chunks@[i].0)
                            &&& chunk_nonempty(d, chunks@[i].0)
                            &&& pos_before(chunks@[i].0, V3i { x: cx, y: cy, z: cz })
                        },
                    forall|c: V3i|
                        chunk_in_grid(d, c) && #[trigger] chunk_nonempty(d, c) && pos_before(
                            c,
                            V3i { x: cx, y: cy, z: cz },
                        ) ==> has_key(chunks@, c),
                    forall|i: int, j: int|
                        0 <= i < j < chunks@.len() ==> pos_before(
                            #[trigger] chunks@[i].0,
                            #[trigger] chunks@[j].0,
                        ),
            {
                let chunk_pos = V3i { x: cx, y: cy, z: cz };
                proof {
                    lemma_chunk_reads_ok(d, chunk_pos);
                }
                let ghost old_chunks = chunks@;

                // Delegate the heavy lifting to the standalone extractor
                if let Some(flat_data) = extract_hot_chunk(data, &chunk_pos) {
                    proof {
                        lemma_flat_no_branch(d, chunk_pos, flat_data@);
                    }
                    // Build the SVO
                    let chunk_tree_data = build_chunk(&flat_data);

                    let min_pos = V3i { x: chunk_pos.x * 32, y: chunk_pos.y * 32, z: chunk_pos.z * 32 };
                    let max_pos = V3i {
                        x: (chunk_pos.x + 1) * 32,
                        y: (chunk_pos.y + 1) * 32,
                        z: (chunk_pos.z + 1) * 32,
                    };

                    proof {
                        assert(!has_key(chunks@, chunk_pos)) by {
                            if has_key(chunks@, chunk_pos) {
                                let i = choose|i: int| 0 <= i < chunks@.len() && #[trigger] chunks@[i].0 == chunk_pos;
                                assert(pos_before(chunks@[i].0, chunk_pos));
                            }
                        }
                    }
                    chunks.insert(chunk_pos, Chunk { data: chunk_tree_data, min_pos, max_pos });
                    proof {
                        let e = chunks@[old_chunks.len() as int];
                        assert(chunk_entry_ok(d, e));
                        let w = choose|lx: int, ly: int, lz: int|
                            in_local(lx, ly, lz) && flat_data@[local_index(lx, ly, lz)] != 0;
                        assert(chunk_nonempty(d, chunk_pos)) by {
                            assert(chunk_voxel(d, chunk_pos, w.0, w.1, w.2) != AIR_MARKER);
                        }
                    }
                }
                proof {
                    let next = V3i { x: cx, y: cy, z: (cz + 1) as i32 };
                    assert forall|c: V3i|
                        chunk_in_grid(d, c) && #[trigger] chunk_nonempty(d, c) && pos_before(
                            c,
                            next,
                        ) implies has_key(chunks@, c) by {
                        if c == chunk_pos {
                            let i = old_chunks.len() as int;
                            assert(chunks@[i].0 == chunk_pos);
                        } else {
                            assert(has_key(old_chunks, c));
                            let i = choose|i: int| 0 <= i < old_chunks.len() && #[trigger] old_chunks[i].0 == c;
                            assert(chunks@[i] == old_chunks[i]);
                        }
                    }
                }
            }
        }
    }

    chunks
}


/// Whether a chunk position lies in the 16x16x16 grid of chunks that the GPU
/// buffer indexes, centred on the origin: -8..8 on each axis.
pub open spec fn in_gpu_grid(p: V3i) -> bool {
    -8 <= p.x < 8 && -8 <= p.y < 8 && -8 <= p.z < 8
}

/// The header slot of a chunk position in the GPU buffer.
pub open spec fn gpu_slot(p: V3i) -> int {
    (p.x + 8) * 256 + (p.y + 8) * 16 + (p.z + 8)
}

/// The GPU buffer of the chunks `s`, taken in order: a header of 4096 slots,
/// each the start of its chunk's octree in the buffer or `0xFFFFFFFF` where
/// no chunk is, then the octrees of the chunks inside the grid, one after
/// the other. Chunks outside the grid are left out.
pub open spec fn packed_world(s: Seq<(V3i, Chunk)>) -> Seq<u32>
    decreases s.len(),
{
    if s.len() == 0 {
        Seq::new(4096, |i: int| 0xFFFF_FFFFu32)
    } else {
        let prev = packed_world(s.drop_last());
        let p = s.last().0;
        if in_gpu_grid(p) {
            prev.update(gpu_slot(p), prev.len() as u32) + s.last().1.data@
        } else {
            prev
        }
    }
}

/// The buffer starts with the 4096 header slots.
pub proof fn lemma_packed_world_len(s: Seq<(V3i, Chunk)>)
    ensures
        packed_world(s).len() >= 4096,
    decreases s.len(),
{
    if s.len() > 0 {
        lemma_packed_world_len(s.drop_last());
    }
}

/// Every chunk of `s` whose position lies in -8..8 on all three axes is in
/// the buffer: its header slot `(x + 8) * 256 + (y + 8) * 16 + (z + 8)`
/// holds where its octree starts, after the header, and the whole octree is
/// there. A header slot that no such chunk owns holds `0xFFFFFFFF`. This
/// holds where no position occurs twice (as in a `ChunkMap`) and every
/// position in the buffer fits in 32 bits.
pub proof fn law_packed_world_finds_chunks(s: Seq<(V3i, Chunk)>)
    requires
        keys_distinct(s),
        packed_world(s).len() <= u32::MAX,
    ensures
        packed_world(s).len() >= 4096,
        forall|i: int|
            0 <= i < s.len() && -8 <= (#[trigger] s[i]).0.x < 8 && -8 <= s[i].0.y < 8 && -8 <= s[i].0.z < 8
                ==> {
                let w = packed_world(s);
                let st = w[(s[i].0.x + 8) * 256 + (s[i].0.y + 8) * 16 + (s[i].0.z + 8)] as int;
                &&& 4096 <= st
                &&& st + s[i].1.data@.len() <= w.len()
                &&& w.subrange(st, st + s[i].1.data@.len()) == s[i].1.data@
            },
        forall|k: int|
            0 <= k < 4096 && !(exists|i: int|
                0 <= i < s.len() && -8 <= (#[trigger] s[i]).0.x < 8 && -8 <= s[i].0.y < 8 && -8 <= s[i].0.z
                    < 8 && (s[i].0.x + 8) * 256 + (s[i].0.y + 8) * 16 + (s[i].0.z + 8) == k)
                ==> packed_world(s)[k] == 0xFFFF_FFFFu32,
    decreases s.len(),
{
    lemma_packed_world_len(s);
    if s.len() > 0 {
        let t = s.drop_last();
        let n = t.len() as int;
        assert forall|i: int, j: int| 0 <= i < j < t.len() implies #[trigger] t[i].0 != #[trigger] t[j].0 by {
            assert(t[i] == s[i] && t[j] == s[j]);
        }
        let prev = packed_world(t);
        let w = packed_world(s);
        let p = s.last().0;
        let data = s.last().1.data@;
        assert(prev.len() <= w.len());
        law_packed_world_finds_chunks(t);
        lemma_packed_world_len(t);
        if in_gpu_grid(p) {
            assert(w == prev.update(gpu_slot(p), prev.len() as u32) + data);
            assert(prev.len() as u32 == prev.len());
            assert forall|i: int|
                0 <= i < s.len() && -8 <= (#[trigger] s[i]).0.x < 8 && -8 <= s[i].0.y < 8 && -8 <= s[i].0.z < 8
                    implies {
                    let st = w[(s[i].0.x + 8) * 256 + (s[i].0.y + 8) * 16 + (s[i].0.z + 8)] as int;
                    &&& 4096 <= st
                    &&& st + s[i].1.data@.len() <= w.len()
                    &&& w.subrange(st, st + s[i].1.data@.len()) == s[i].1.data@
                } by {
                let q = s[i].0;
                let slot = (q.x + 8) * 256 + (q.y + 8) * 16 + (q.z + 8);
                if i < n {
                    assert(t[i] == s[i]);
                    assert(q != p);
                    assert(slot != gpu_slot(p));
                    let st = prev[slot] as int;
                    assert(w[slot] == prev[slot]);
                    assert(w.subrange(st, st + s[i].1.data@.len()) =~= prev.subrange(st, st + s[i].1.data@.len()));
                } else {
                    assert(slot == gpu_slot(p));
                    assert(w[slot] == prev.len() as u32);
                    assert(w.subrange(prev.len() as int, (prev.len() + data.len()) as int) =~= data);
                }
            }
            assert forall|k: int|
                0 <= k < 4096 && !(exists|i: int|
                    0 <= i < s.len() && -8 <= (#[trigger] s[i]).0.x < 8 && -8 <= s[i].0.y < 8 && -8
                        <= s[i].0.z < 8 && (s[i].0.x + 8) * 256 + (s[i].0.y + 8) * 16 + (s[i].0.z + 8) == k)
                    implies w[k] == 0xFFFF_FFFFu32 by {
                assert(s[n] == s.last());
                assert(k != gpu_slot(p));
                if exists|i: int|
                    0 <= i < t.len() && -8 <= (#[trigger] t[i]).0.x < 8 && -8 <= t[i].0.y < 8 && -8
                        <= t[i].0.z < 8 && (t[i].0.x + 8) * 256 + (t[i].0.y + 8) * 16 + (t[i].0.z + 8) == k {
                    let i = choose|i: int|
                        0 <= i < t.len() && -8 <= (#[trigger] t[i]).0.x < 8 && -8 <= t[i].0.y < 8 && -8
                            <= t[i].0.z < 8 && (t[i].0.x + 8) * 256 + (t[i].0.y + 8) * 16 + (t[i].0.z + 8) == k;
                    assert(s[i] == t[i]);
                }
            }
        } else {
            assert(w == prev);
            assert forall|i: int|
                0 <= i < s.len() && -8 <= (#[trigger] s[i]).0.x < 8 && -8 <= s[i].0.y < 8 && -8 <= s[i].0.z < 8
                    implies {
                    let st = w[(s[i].0.x + 8) * 256 + (s[i].0.y + 8) * 16 + (s[i].0.z + 8)] as int;
                    &&& 4096 <= st
                    &&& st + s[i].1.data@.len() <= w.len()
                    &&& w.subrange(st, st + s[i].1.data@.len()) == s[i].1.data@
                } by {
                assert(i < n);
                assert(t[i] == s[i]);
            }
            assert forall|k: int|
                0 <= k < 4096 && !(exists|i: int|
                    0 <= i < s.len() && -8 <= (#[trigger] s[i]).0.x < 8 && -8 <= s[i].0.y < 8 && -8
                        <= s[i].0.z < 8 && (s[i].0.x + 8) * 256 + (s[i].0.y + 8) * 16 + (s[i].0.z + 8) == k)
                    implies w[k] == 0xFFFF_FFFFu32 by {
                if exists|i: int|
                    0 <= i < t.len() && -8 <= (#[trigger] t[i]).0.x < 8 && -8 <= t[i].0.y < 8 && -8
                        <= t[i].0.z < 8 && (t[i].0.x + 8) * 256 + (t[i].0.y + 8) * 16 + (t[i].0.z + 8) == k {
                    let i = choose|i: int|
                        0 <= i < t.len() && -8 <= (#[trigger] t[i]).0.x < 8 && -8 <= t[i].0.y < 8 && -8
                            <= t[i].0.z < 8 && (t[i].0.x + 8) * 256 + (t[i].0.y + 8) * 16 + (t[i].0.z + 8) == k;
                    assert(s[i] == t[i]);
                }
            }
        }
    }
}

/// Packs the chunks of a world into one buffer for the GPU (see
/// `packed_world`).
pub fn pack_world_to_gpu(chunks: &ChunkMap) -> (gpu: Vec<u32>)
    requires
        forall|i: int|
            0 <= i < chunks@.len() ==> {
                let p = (#[trigger] chunks@[i]).0;
                p.x <= i32::MAX - 8 && p.y <= i32::MAX - 8 && p.z <= i32::MAX - 8
            },
    ensures
        gpu@ == packed_world(chunks@),
        gpu@.len() <= u32::MAX ==> forall|i: int|
            0 <= i < chunks@.len() && -8 <= (#[trigger] chunks@[i]).0.x < 8 && -8 <= chunks@[i].0.y < 8
                && -8 <= chunks@[i].0.z < 8 ==> {
                let st = gpu@[(chunks@[i].0.x + 8) * 256 + (chunks@[i].0.y + 8) * 16 + (chunks@[i].0.z
                    + 8)] as int;
                &&& 4096 <= st
                &&& st + chunks@[i].1.data@.len() <= gpu@.len()
                &&& gpu@.subrange(st, st + chunks@[i].1.data@.len()) == chunks@[i].1.data@
            },
{
    let grid_size: i32 = 16;
    let offset: i32 = 8;
    let mut gpu_data: Vec<u32> = Vec::new();
    let mut h: usize = 0;
    while h < 4096
        invariant
            h <= 4096,
            gpu_data@ == Seq::new(h as nat, |i: int| 0xFFFF_FFFFu32),
        decreases 4096 - h,
    {
        gpu_data.push(0xFFFF_FFFF);
        h = h + 1;
        assert(gpu_data@ =~= Seq::new(h as nat, |i: int| 0xFFFF_FFFFu32));
    }
    let entries = chunks.entries();
    let mut e: usize = 0;
    while e < entries.len()
        invariant
            e <= entries@.len(),
            entries@ == chunks@,
            forall|i: int|
                0 <= i < chunks@.len() ==> {
                    let p = (#[trigger] chunks@[i]).0;
                    p.x <= i32::MAX - 8 && p.y <= i32::MAX - 8 && p.z <= i32::MAX - 8
                },
            grid_size == 16,
            offset == 8,
            gpu_data@ == packed_world(entries@.take(e as int)),
        decreases entries@.len() - e,
    {
        let pos = entries[e].0;
        let chunk = &entries[e].1;
        assert(entries@.take(e + 1).drop_last() =~= entries@.take(e as int));
        assert(entries@.take(e + 1).last() == entries@[e as int]);
        assert(chunks@[e as int].0 == pos);
        proof {
            lemma_packed_world_len(entries@.take(e as int));
        }
        let gx = pos.x + offset;
        let gy = pos.y + offset;
        let gz = pos.z + offset;
        if gx >= 0 && gx < grid_size && gy >= 0 && gy < grid_size && gz >= 0 && gz < grid_size {
            let grid_index = (gx * grid_size * grid_size) + (gy * grid_size) + gz;
            let start_pointer = gpu_data.len() as u32;
            gpu_data.set(grid_index as usize, start_pointer);
            let ghost before = gpu_data@;
            let mut k: usize = 0;
            while k < chunk.data.len()
                invariant
                    k <= chunk.data@.len(),
                    gpu_data@ == before + chunk.data@.take(k as int),
                decreases chunk.data@.len() - k,
            {
                gpu_data.push(chunk.data[k]);
                k = k + 1;
                assert(gpu_data@ =~= before + chunk.data@.take(k as int));
            }
            assert(chunk.data@.take(k as int) =~= chunk.data@);
        }
        e = e + 1;
    }
    assert(entries@.take(e as int) =~= chunks@);
    proof {
        if gpu_data@.len() <= u32::MAX {
            law_packed_world_finds_chunks(chunks@);
        }
    }
    gpu_data
}

} // verus!
