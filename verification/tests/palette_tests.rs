use raycaster::palette::ColorIndex;

#[test]
fn colors_get_consecutive_indices_after_the_defaults() {
    let mut c = ColorIndex::new();
    assert_eq!(c.color_index((1, 2, 3)), None);
    assert!(c.add_color((1, 2, 3)));
    assert!(c.add_color((4, 5, 6)));
    assert_eq!(c.color_index((1, 2, 3)), Some(2));
    assert_eq!(c.color_index((4, 5, 6)), Some(3));
}

#[test]
fn a_known_color_keeps_its_index() {
    let mut c = ColorIndex::new();
    assert!(c.add_color((7, 7, 7)));
    assert!(!c.add_color((7, 7, 7)));
    assert!(c.add_color((8, 8, 8)));
    assert_eq!(c.color_index((7, 7, 7)), Some(2));
    assert_eq!(c.color_index((8, 8, 8)), Some(3));
}

#[test]
fn materials_name_their_color() {
    let mut c = ColorIndex::new();
    c.add_material("red".to_string(), (1, 0, 0));
    c.add_material("blue".to_string(), (0, 0, 1));
    assert_eq!(c.material_index("red"), Some(2));
    assert_eq!(c.material_index("blue"), Some(3));
    assert_eq!(c.material_index("green"), None);
    assert_eq!(c.color_index((0, 0, 1)), Some(3));
    // a material defined again takes the new index
    c.add_material("red".to_string(), (1, 0, 0));
    assert_eq!(c.material_index("red"), Some(4));
    assert_eq!(c.color_index((1, 0, 0)), Some(4));
    assert!(!c.add_color((1, 0, 0)));
}
