use vstd::prelude::*;

use crate::builder::local_index;
use crate::vecmath::V3i;

verus! {

/// The materials of generated terrain.
#[derive(Clone, Copy, Debug, PartialEq, Eq, Structural)]
pub struct BlockColors {
    pub grass: u32,
    pub stone: u32,
    pub water: u32,
}

/// The material that generated terrain has at global height `global_y` in a
/// column whose surface lies at `limit`: water at or below height 0, the
/// column's ground material (stone or grass) above it up to the surface, air
/// higher up.
pub open spec fn terrain_voxel(colors: BlockColors, global_y: int, limit: int, stone: bool) -> u32 {
    if global_y <= 0 {
        colors.water
    } else if global_y <= limit {
        if stone {
            colors.stone
        } else {
            colors.grass
        }
    } else {
        0
    }
}

/// Generated terrain is water at and below height 0, whatever the column;
/// between height 0 and the column's surface it is the column's ground
/// material, stone or grass; above both it is air.
pub proof fn law_terrain_layers(colors: BlockColors, global_y: int, limit: int, stone: bool)
    ensures
        global_y <= 0 ==> terrain_voxel(colors, global_y, limit, stone) == colors.water,
        0 < global_y <= limit ==> terrain_voxel(colors, global_y, limit, stone) == if stone {
            colors.stone
        } else {
            colors.grass
        },
        0 < global_y && limit < global_y ==> terrain_voxel(colors, global_y, limit, stone) == 0,
{
}

/// Fills the 32x32x32 voxels (flat layout `x + 32 y + 1024 z`) of the chunk at
/// `chunk_coord` from the terrain of its columns: column `dx + 32 dz` has its
/// surface at height `column_limits[dx + 32 dz]` and is stone where
/// `stone_columns` says so, grass elsewhere.
pub fn fill_chunk_columns(
    colors: &BlockColors,
    chunk_coord: &V3i,
    column_limits: &[i32],
    stone_columns: &[bool],
) -> (flat_data: Vec<u32>)
    requires
        column_limits@.len() == 1024,
        stone_columns@.len() == 1024,
        -67108864 <= chunk_coord.y <= 67108863,
    ensures
        flat_data@.len() == 32768,
        forall|dx: int, dy: int, dz: int|
            0 <= dx < 32 && 0 <= dy < 32 && 0 <= dz < 32 ==> #[trigger] flat_data@[local_index(
                dx,
                dy,
                dz,
            )] == terrain_voxel(
                *colors,
                chunk_coord.y * 32 + dy,
                column_limits@[dx + 32 * dz] as int,
                stone_columns@[dx + 32 * dz],
            ),
        forall|dx: int, dy: int, dz: int|
            0 <= dx < 32 && 0 <= dy < 32 && 0 <= dz < 32 && chunk_coord.y * 32 + dy <= 0
                ==> #[trigger] flat_data@[local_index(dx, dy, dz)] == colors.water,
        forall|dx: int, dy: int, dz: int|
            0 <= dx < 32 && 0 <= dy < 32 && 0 <= dz < 32 && 0 < chunk_coord.y * 32 + dy
                <= column_limits@[dx + 32 * dz] ==> #[trigger] flat_data@[local_index(dx, dy, dz)]
                == if stone_columns@[dx + 32 * dz] {
                colors.stone
            } else {
                colors.grass
            },
        forall|dx: int, dy: int, dz: int|
            0 <= dx < 32 && 0 <= dy < 32 && 0 <= dz < 32 && 0 < chunk_coord.y * 32 + dy
                && column_limits@[dx + 32 * dz] < chunk_coord.y * 32 + dy
                ==> #[trigger] flat_data@[local_index(dx, dy, dz)] == 0,
{
    let mut flat_data = vec![0; 32768];
    for dx in 0..32
        invariant
            flat_data@.len() == 32768,
            column_limits@.len() == 1024,
            stone_columns@.len() == 1024,
            -67108864 <= chunk_coord.y <= 67108863,
            forall|x: int, y: int, z: int|
                0 <= x < 32 && 0 <= y < 32 && 0 <= z < 32 ==> #[trigger] flat_data@[local_index(
                    x,
                    y,
                    z,
                )] == if x < dx {
                    terrain_voxel(
                        *colors,
                        chunk_coord.y * 32 + y,
                        column_limits@[x + 32 * z] as int,
                        stone_columns@[x + 32 * z],
                    )
                } else {
                    0
                },
    {
        for dz in 0..32
            invariant
                0 <= dx < 32,
                flat_data@.len() == 32768,
                column_limits@.len() == 1024,
                stone_columns@.len() == 1024,
                -67108864 <= chunk_coord.y <= 67108863,
                forall|x: int, y: int, z: int|
                    0 <= x < 32 && 0 <= y < 32 && 0 <= z < 32 ==> #[trigger] flat_data@[local_index(
                        x,
                        y,
                        z,
                    )] == if x < dx || (x == dx && z < dz) {
                        terrain_voxel(
                            *colors,
                            chunk_coord.y * 32 + y,
                            column_limits@[x + 32 * z] as int,
                            stone_columns@[x + 32 * z],
                        )
                    } else {
                        0
                    },
        {
            let column = (dx + dz * 32) as usize;
            let global_y_limit = column_limits[column];
            let is_stone = stone_columns[column];

            for dy in 0..32
                invariant
                    0 <= dx < 32,
                    0 <= dz < 32,
                    column == dx + 32 * dz,
                    global_y_limit == column_limits@[column as int],
                    is_stone == stone_columns@[column as int],
                    flat_data@.len() == 32768,
                    column_limits@.len() == 1024,
                    stone_columns@.len() == 1024,
                    -67108864 <= chunk_coord.y <= 67108863,
                    forall|x: int, y: int, z: int|
                        0 <= x < 32 && 0 <= y < 32 && 0 <= z < 32 ==> #[trigger] flat_data@[
                            local_index(x, y, z)] == if x < dx || (x == dx && z < dz) || (x == dx
                            && z == dz && y < dy) {
                            terrain_voxel(
                                *colors,
                                chunk_coord.y * 32 + y,
                                column_limits@[x + 32 * z] as int,
                                stone_columns@[x + 32 * z],
                            )
                        } else {
                            0
                        },
            {
                let index = dx + (dy * 32) + (dz * 32 * 32);
                let ghost before = flat_data@;

                let global_y = chunk_coord.y * 32 + dy;
                if 0 < global_y && global_y <= global_y_limit {
                    let color = if is_stone {
                        colors.stone
                    } else {
                        colors.grass
                    };
                    flat_data[index as usize] = color;
                }

                if global_y <= 0 {
                    flat_data[index as usize] = colors.water;
                }
                proof {
                    assert forall|x: int, y: int, z: int|
                        0 <= x < 32 && 0 <= y < 32 && 0 <= z < 32 implies #[trigger] flat_data@[
                        local_index(x, y, z)] == if x < dx || (x == dx && z < dz) || (x == dx && z
                        == dz && y < dy + 1) {
                        terrain_voxel(
                            *colors,
                            chunk_coord.y * 32 + y,
                            column_limits@[x + 32 * z] as int,
                            stone_columns@[x + 32 * z],
                        )
                    } else {
                        0
                    } by {
                        if !(x == dx && y == dy && z == dz) {
                            assert(local_index(x, y, z) != local_index(dx as int, dy as int, dz as int));
                            assert(flat_data@[local_index(x, y, z)] == before[local_index(x, y, z)]);
                        }
                    }
                }
            }
        }
    }
    flat_data
}

} // verus!
