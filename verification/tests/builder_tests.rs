use raycaster::builder::{build_chunk, extract_hot_chunk, to_chunks};
use raycaster::vecmath::V3i;

#[test]
fn test_extract_hot_chunk_empty_and_oob() {
    // A 2x2x2 grid of pure air (0) using Vecs
    let data = vec![
        vec![vec![0, 0], vec![0, 0]],
        vec![vec![0, 0], vec![0, 0]],
    ];

    // Should return None because there are no solid voxels
    let result = extract_hot_chunk(&data, &V3i { x: 0, y: 0, z: 0 });
    assert!(result.is_none(), "Chunk should be completely empty");

    // Requesting a chunk completely outside the data bounds
    let oob_result = extract_hot_chunk(&data, &V3i { x: 1, y: 0, z: 0 });
    assert!(oob_result.is_none(), "Out of bounds chunk should be handled and return None");
}

#[test]
fn test_extract_hot_chunk_partial_data() {
    // A 1x1x1 grid containing a single voxel of type '42'
    let data = vec![vec![vec![42]]];

    let result = extract_hot_chunk(&data, &V3i { x: 0, y: 0, z: 0 })
        .expect("Chunk should contain data");

    assert_eq!(result.len(), 32768, "Hot chunk must always be exactly 32,768 elements");
    assert_eq!(result[0], 42, "Voxel at 0,0,0 should be mapped to index 0");
    assert_eq!(result[1], 0, "Remaining voxels should be 0");
}

#[test]
fn test_build_chunk_solid_volume() {
    let flat_data = vec![77; 32768];
    let svo = build_chunk(&flat_data);

    assert_eq!(svo.len(), 9, "Solid chunk should compress perfectly into 9 nodes");

    let expected_root = (0xFF << 24) | (0xFF << 16) | 1;
    assert_eq!(svo[0], expected_root, "Root node bitmask or pointer is incorrect");

    for i in 1..9 {
        assert_eq!(svo[i], 77, "Child node should contain the raw material payload");
    }
}

#[test]
fn test_build_chunk_single_voxel_at_origin() {
    let mut flat_data = vec![0; 32768];
    flat_data[0] = 99;

    let svo = build_chunk(&flat_data);

    assert_eq!(svo.len(), 6, "Single voxel path should take exactly 6 nodes");
    assert_eq!(svo[0], (1 << 24) | (0 << 16) | 1, "Root should point to L1");
    assert_eq!(svo[4], (1 << 24) | (1 << 16) | 5, "L4 should point to Leaf with Leaf Mask applied");
    assert_eq!(svo[5], 99, "Final node should be the voxel payload");
}

#[test]
fn test_build_chunk_single_voxel_at_extremity() {
    let mut flat_data = vec![0; 32768];
    let last_idx = 31 + (31 * 32) + (31 * 1024);
    flat_data[last_idx] = 42;

    let svo = build_chunk(&flat_data);

    assert_eq!(svo.len(), 6);
    assert_eq!(svo[0], (128 << 24) | (0 << 16) | 1, "Root should branch at child 7");
    assert_eq!(svo[4], (128 << 24) | (128 << 16) | 5, "L4 should point to Leaf at child 7");
    assert_eq!(svo[5], 42, "Final node should be the voxel payload");
}

#[test]
fn test_to_chunks_boundary_split() {
    // A 33x1x1 grid filled with material 5.
    let data = vec![vec![vec![5]]; 33];

    let chunks = to_chunks(&data);

    assert_eq!(chunks.len(), 2, "A 33-wide volume must be split into exactly 2 chunks");

    let chunk_main = chunks.get(&V3i { x: 0, y: 0, z: 0 }).expect("Main chunk missing");
    assert_eq!(chunk_main.min_pos.x, 0);
    assert_eq!(chunk_main.max_pos.x, 32);
    assert!(chunk_main.data.len() > 1);

    let chunk_overflow = chunks.get(&V3i { x: 1, y: 0, z: 0 }).expect("Overflow chunk missing");
    assert_eq!(chunk_overflow.min_pos.x, 32);
    assert_eq!(chunk_overflow.max_pos.x, 64);
    assert_eq!(chunk_overflow.data.len(), 6, "Overflow chunk with 1 voxel should have 6 nodes");
}

#[test]
fn test_standard_cube_fits_in_one_chunk() {
    // A 2x2x2 cube
    let data = vec![
        vec![
            vec![1, 0], // y = 0
            vec![0, 2], // y = 1
        ],
        vec![
            vec![0, 3], // y = 0
            vec![4, 0], // y = 1
        ],
    ];

    let result = to_chunks(&data);

    assert_eq!(result.len(), 1, "Should generate exactly 1 chunk");
    let chunk = result.get(&V3i { x: 0, y: 0, z: 0 }).expect("Chunk at origin should exist");
    assert!(!chunk.data.is_empty(), "Chunk SVO data should not be empty");
}

#[test]
fn test_asymmetrical_dimensions() {
    // Width = 1, Height = 2, Depth = 3
    let data = vec![vec![
        vec![1, 2, 3], // y = 0
        vec![0, 5, 0], // y = 1
    ]];

    let result = to_chunks(&data);

    assert_eq!(result.len(), 1, "Asymmetrical data should fit in 1 chunk");
    assert!(result.contains_key(&V3i { x: 0, y: 0, z: 0 }));
}

#[test]
fn test_single_element() {
    // Width = 1, Height = 1, Depth = 1
    let data = vec![vec![vec![42]]];

    let result = to_chunks(&data);

    assert_eq!(result.len(), 1);
    let chunk = result.get(&V3i { x: 0, y: 0, z: 0 }).unwrap();
    assert_eq!(chunk.data.len(), 6, "A single voxel chunk should compress to 6 nodes");
}

#[test]
fn test_empty_data() {
    // Width = 0
    let data: Vec<Vec<Vec<u32>>> = vec![];

    let result = to_chunks(&data);

    assert_eq!(result.len(), 0);
    assert!(result.is_empty());
}
