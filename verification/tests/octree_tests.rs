use raycaster::octree::{child_pop_count, get_ending, has_child, is_leaf, next_sub_voxel};

#[test]
fn test_bitwise_packing() {
    let mut test_state: u32 = 0;

    test_state |= 1 << 24; // Child 0 exists
    test_state |= 1 << 31; // Child 7 exists

    test_state |= 1 << 16; // Child 0 is a leaf

    let payload: u32 = 0xABCD;
    test_state |= payload; // Add the payload to the bottom 16 bits

    assert!(has_child(test_state, 0), "Failed to find Child 0 in CC byte");
    assert!(has_child(test_state, 7), "Failed to find Child 7 in CC byte");
    assert!(!has_child(test_state, 1), "Falsely found Child 1 in CC byte");

    assert!(is_leaf(test_state, 0), "Failed to identify Child 0 as a leaf in LL byte");
    assert!(!is_leaf(test_state, 7), "Falsely identified Child 7 as a leaf in LL byte");

    assert_eq!(get_ending(test_state), 0xABCD, "Failed to extract OOOO payload");
}

#[test]
fn child_pop_count_counts_earlier_children() {
    // Children 0, 2, 5 and 7 exist.
    let word: u32 = (0b1010_0101 << 24) | 3;
    assert_eq!(child_pop_count(word, 0), 0);
    assert_eq!(child_pop_count(word, 1), 1);
    assert_eq!(child_pop_count(word, 2), 1);
    assert_eq!(child_pop_count(word, 3), 2);
    assert_eq!(child_pop_count(word, 7), 3);
    assert_eq!(child_pop_count(word, 8), 4);
}

#[test]
fn next_sub_voxel_steps_up_the_exit_axis() {
    let table: [(u32, u32, Option<u32>); 24] = [
        (0, 0, Some(1)), (0, 1, Some(2)), (0, 2, Some(4)),
        (1, 0, None), (1, 1, Some(3)), (1, 2, Some(5)),
        (2, 0, Some(3)), (2, 1, None), (2, 2, Some(6)),
        (3, 0, None), (3, 1, None), (3, 2, Some(7)),
        (4, 0, Some(5)), (4, 1, Some(6)), (4, 2, None),
        (5, 0, None), (5, 1, Some(7)), (5, 2, None),
        (6, 0, Some(7)), (6, 1, None), (6, 2, None),
        (7, 0, None), (7, 1, None), (7, 2, None),
    ];
    for (current, plane, next) in table {
        assert_eq!(next_sub_voxel(current, plane), next, "{} {}", current, plane);
    }
    assert_eq!(next_sub_voxel(8, 0), None);
    assert_eq!(next_sub_voxel(0, 3), None);
}
