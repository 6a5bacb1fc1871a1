use raycaster::builder::{build_chunk, pack_world_to_gpu};
use raycaster::chunk_map::ChunkMap;
use raycaster::error::SaveAndLoadError;
use raycaster::file_handler::{compress_world_file, decompress_world_file, world_from_entries};
use raycaster::octree::Chunk;
use raycaster::vecmath::V3i;
use raycaster::worldgen::{fill_chunk_columns, BlockColors};

fn chunk_of(data: Vec<u32>) -> Chunk {
    Chunk {
        data,
        min_pos: V3i { x: 0, y: 0, z: 0 },
        max_pos: V3i { x: 32, y: 32, z: 32 },
    }
}

fn p(x: i32, y: i32, z: i32) -> V3i {
    V3i { x, y, z }
}

/// Reads a voxel back out of an octree, descending from the root word.
fn voxel(svo: &[u32], x: usize, y: usize, z: usize) -> u32 {
    let mut word = svo[0];
    let mut size = 16;
    loop {
        let i = ((x / size) % 2 + 2 * ((y / size) % 2) + 4 * ((z / size) % 2)) as u32;
        if (word >> (24 + i)) & 1 == 0 {
            return 0;
        }
        let cc = word >> 24;
        let rank = (cc & ((1 << i) - 1)).count_ones() as usize;
        let idx = (word & 0xFFFF) as usize + rank;
        if (word >> (16 + i)) & 1 == 1 {
            return svo[idx];
        }
        word = svo[idx];
        size /= 2;
    }
}

fn flat_index(x: usize, y: usize, z: usize) -> usize {
    x + 32 * y + 1024 * z
}

#[test]
fn chunk_map_insert_replaces_and_get_finds() {
    let mut m = ChunkMap::new();
    assert!(m.is_empty());
    assert!(m.insert(p(1, 2, 3), chunk_of(vec![1])).is_none());
    assert!(m.insert(p(0, 0, 0), chunk_of(vec![2])).is_none());
    let prev = m.insert(p(1, 2, 3), chunk_of(vec![3])).expect("key was there");
    assert_eq!(prev.data, vec![1]);
    assert_eq!(m.len(), 2);
    assert_eq!(m.get(&p(1, 2, 3)).unwrap().data, vec![3]);
    assert_eq!(m.get(&p(0, 0, 0)).unwrap().data, vec![2]);
    assert!(m.get(&p(9, 9, 9)).is_none());
    assert!(m.contains_key(&p(0, 0, 0)));
    assert_eq!(m.entries()[0].0, p(1, 2, 3));
    m.clear();
    assert_eq!(m.len(), 0);
}

#[test]
fn loaded_entries_keep_the_last_chunk_of_a_position() {
    let entries = vec![
        (p(0, 0, 0), chunk_of(vec![1])),
        (p(1, 0, 0), chunk_of(vec![2])),
        (p(0, 0, 0), chunk_of(vec![3])),
    ];
    let m = world_from_entries(entries);
    assert_eq!(m.len(), 2);
    assert_eq!(m.get(&p(0, 0, 0)).unwrap().data, vec![3]);
    assert_eq!(m.get(&p(1, 0, 0)).unwrap().data, vec![2]);
}

#[test]
fn gpu_buffer_has_header_and_chunks() {
    let mut m = ChunkMap::new();
    m.insert(p(0, 0, 0), chunk_of(vec![10, 11]));
    m.insert(p(100, 0, 0), chunk_of(vec![99]));
    m.insert(p(-8, 7, -1), chunk_of(vec![20]));
    let gpu = pack_world_to_gpu(&m);
    assert_eq!(gpu.len(), 4096 + 3);
    let slot_a = 8 * 256 + 8 * 16 + 8;
    let slot_b = 0 * 256 + 15 * 16 + 7;
    assert_eq!(gpu[slot_a], 4096);
    assert_eq!(gpu[slot_b], 4098);
    assert_eq!(&gpu[4096..], &[10, 11, 20]);
    let filled = gpu[..4096].iter().filter(|&&v| v != 0xFFFF_FFFF).count();
    assert_eq!(filled, 2);
}

#[test]
fn empty_world_packs_to_empty_header() {
    let gpu = pack_world_to_gpu(&ChunkMap::new());
    assert_eq!(gpu, vec![0xFFFF_FFFF; 4096]);
}

#[test]
fn merged_chunk_prefers_the_other_chunks_voxels() {
    let mut a = vec![0u32; 32768];
    let mut b = vec![0u32; 32768];
    a[flat_index(0, 0, 0)] = 5;
    a[flat_index(3, 4, 5)] = 6;
    a[flat_index(31, 31, 31)] = 7;
    b[flat_index(0, 0, 0)] = 9;
    b[flat_index(17, 2, 30)] = 8;
    let mut base = chunk_of(build_chunk(&a));
    let other = chunk_of(build_chunk(&b));
    assert!(base.add_chunk(&other));
    for (x, y, z) in [(0, 0, 0), (3, 4, 5), (31, 31, 31), (17, 2, 30), (1, 0, 0), (16, 16, 16)] {
        let ob = b[flat_index(x, y, z)];
        let expected = if ob != 0 { ob } else { a[flat_index(x, y, z)] };
        assert_eq!(voxel(&base.data, x, y, z), expected, "voxel {:?}", (x, y, z));
    }
}

#[test]
fn merging_a_solid_chunk_makes_a_solid_chunk() {
    let mut a = vec![0u32; 32768];
    a[flat_index(1, 2, 3)] = 4;
    let mut base = chunk_of(build_chunk(&a));
    let solid = chunk_of(build_chunk(&vec![3u32; 32768]));
    assert!(base.add_chunk(&solid));
    for (x, y, z) in [(0, 0, 0), (1, 2, 3), (31, 0, 17)] {
        assert_eq!(voxel(&base.data, x, y, z), 3);
    }
}

#[test]
fn malformed_chunk_is_not_merged() {
    let mut base = chunk_of(vec![(1 << 24) | 5]);
    let other = chunk_of(build_chunk(&vec![3u32; 32768]));
    assert!(!base.add_chunk(&other));
    assert_eq!(base.data, vec![(1 << 24) | 5]);
}

#[test]
fn terrain_columns_fill_water_stone_and_grass() {
    let colors = BlockColors { grass: 1, stone: 2, water: 3 };
    let mut limits = vec![0i32; 1024];
    let mut stone = vec![false; 1024];
    limits[0] = 5;
    limits[1] = 40;
    stone[1] = true;
    let flat = fill_chunk_columns(&colors, &p(0, 0, 0), &limits, &stone);
    assert_eq!(flat.len(), 32768);
    assert_eq!(flat[flat_index(0, 0, 0)], 3);
    assert_eq!(flat[flat_index(0, 1, 0)], 1);
    assert_eq!(flat[flat_index(0, 5, 0)], 1);
    assert_eq!(flat[flat_index(0, 6, 0)], 0);
    assert_eq!(flat[flat_index(1, 31, 0)], 2);
    let below = fill_chunk_columns(&colors, &p(0, -1, 0), &limits, &stone);
    assert_eq!(below[flat_index(5, 31, 5)], 3);
}

#[test]
fn world_file_bytes_load_back_as_saved() {
    let data: Vec<u8> = (0..2000u32).map(|i| (i % 7) as u8).collect();
    let file = compress_world_file(&data).unwrap();
    assert_eq!(&file[..2], &[0x1f, 0x8b]);
    assert!(file.len() < data.len());
    assert_eq!(decompress_world_file(&file).unwrap(), data);

    let empty = compress_world_file(&[]).unwrap();
    assert_eq!(decompress_world_file(&empty).unwrap(), Vec::<u8>::new());
}

#[test]
fn bytes_that_are_no_gzip_do_not_load() {
    assert!(matches!(decompress_world_file(b"not a world"), Err(SaveAndLoadError::IoError(_))));
    let mut file = compress_world_file(b"some world").unwrap();
    let last = file.len() - 1;
    file[last] ^= 0xff;
    assert!(matches!(decompress_world_file(&file), Err(SaveAndLoadError::IoError(_))));
}

#[test]
fn a_dense_chunk_merges_into_a_small_one() {
    let mut board = vec![0u32; 32768];
    for z in 0..32 {
        for y in 0..32 {
            for x in 0..32 {
                if (x + y + z) % 2 == 0 {
                    board[flat_index(x, y, z)] = 2;
                }
            }
        }
    }
    let dense = chunk_of(build_chunk(&board));
    assert_eq!(dense.data.len(), 21065);
    let mut single = vec![0u32; 32768];
    single[flat_index(1, 0, 0)] = 7;
    let mut base = chunk_of(build_chunk(&single));
    assert!(base.add_chunk(&dense));
    for (x, y, z) in [(0, 0, 0), (1, 0, 0), (2, 0, 0), (31, 31, 31), (31, 30, 30), (5, 6, 7)] {
        let ob = board[flat_index(x, y, z)];
        let expected = if ob != 0 { ob } else { single[flat_index(x, y, z)] };
        assert_eq!(voxel(&base.data, x, y, z), expected, "voxel {:?}", (x, y, z));
    }
}

#[test]
fn a_dense_chunk_does_not_fit_over_a_solid_one() {
    let mut board = vec![0u32; 32768];
    for z in 0..32 {
        for y in 0..32 {
            for x in 0..32 {
                if (x + y + z) % 2 == 0 {
                    board[flat_index(x, y, z)] = 2;
                }
            }
        }
    }
    let dense = chunk_of(build_chunk(&board));
    let solid = build_chunk(&vec![3u32; 32768]);
    let mut base = chunk_of(solid.clone());
    assert!(!base.add_chunk(&dense));
    assert_eq!(base.data, solid);
}

#[test]
fn a_chunk_merged_with_its_own_copy_stays_as_it_is() {
    let mut board = vec![0u32; 32768];
    for z in 0..32 {
        for y in 0..32 {
            for x in 0..32 {
                if (x + y + z) % 2 == 0 {
                    board[flat_index(x, y, z)] = 2;
                }
            }
        }
    }
    let dense = chunk_of(build_chunk(&board));
    let mut base = chunk_of(dense.data.clone());
    assert!(base.add_chunk(&dense));
    assert_eq!(base.data, dense.data);
}

#[test]
fn a_merge_appends_one_block_for_a_changed_node() {
    let mut base = chunk_of(vec![0x8080_0001, 5]);
    let other = chunk_of(vec![0x8181_0001, 3, 9]);
    assert!(base.add_chunk(&other));
    assert_eq!(base.data, vec![0x8181_0002, 5, 3, 9]);
}
