use raycaster::error::FileParseError;
use raycaster::file_parser::{
    classify_mtl_line, classify_obj_line, get_file_format, model_format, parse_face_corners,
    parse_face_obj_format, shift_face_colors, triangle_corners, triangulate, Face, FaceCorners, ModelFormat, MtlLine,
    ObjLine,
};

#[test]
fn face_corner_with_texture_index() {
    let r = parse_face_obj_format(Some("3/4/5"));
    assert_eq!(r.unwrap(), (2, Some(4)));
}

#[test]
fn face_corner_without_texture_index() {
    assert_eq!(parse_face_obj_format(Some("7")).unwrap(), (6, None));
    assert_eq!(parse_face_obj_format(Some("7//2")).unwrap(), (6, None));
    assert_eq!(parse_face_obj_format(Some("+7/x")).unwrap(), (6, None));
}

#[test]
fn face_corner_missing_is_missing_data() {
    assert!(matches!(parse_face_obj_format(None), Err(FileParseError::MissingData)));
}

#[test]
fn face_corner_not_a_number_is_invalid_data_type() {
    match parse_face_obj_format(Some("apple/2")) {
        Err(FileParseError::InvalidDataType(s)) => assert_eq!(s, "apple"),
        other => panic!("unexpected {:?}", other),
    }
    match parse_face_obj_format(Some("-3")) {
        Err(FileParseError::InvalidDataType(s)) => assert_eq!(s, "-3"),
        other => panic!("unexpected {:?}", other),
    }
    match parse_face_obj_format(Some("99999999999999999999999")) {
        Err(FileParseError::InvalidDataType(s)) => assert_eq!(s, "99999999999999999999999"),
        other => panic!("unexpected {:?}", other),
    }
}

#[test]
fn face_corner_zero_is_out_of_bounds() {
    assert!(matches!(
        parse_face_obj_format(Some("0/1")),
        Err(FileParseError::DataOutOfBounds(0))
    ));
}

#[test]
fn triangle_face_line() {
    let c = parse_face_corners("1/1 2/2 3/3").unwrap();
    assert_eq!(c, FaceCorners { a: 0, b: 1, c: 2, d: None, texture: Some(1) });
    let faces = triangulate(&c, 5);
    assert_eq!(faces, vec![Face { v1: 0, v2: 1, v3: 2, color_id: 5 }]);
}

#[test]
fn quad_face_line_is_split_in_two() {
    let c = parse_face_corners("  1 2\t3   4 ").unwrap();
    assert_eq!(c, FaceCorners { a: 0, b: 1, c: 2, d: Some(3), texture: None });
    let faces = triangulate(&c, 1);
    assert_eq!(
        faces,
        vec![
            Face { v1: 0, v2: 1, v3: 2, color_id: 1 },
            Face { v1: 0, v2: 2, v3: 3, color_id: 1 },
        ]
    );
}

#[test]
fn face_texture_comes_from_first_corner_that_has_one() {
    let c = parse_face_corners("1 2/7 3/8 4/9").unwrap();
    assert_eq!(c.texture, Some(7));
    let c = parse_face_corners("1 2 3 4/9").unwrap();
    assert_eq!(c.texture, Some(9));
    // a bad fourth corner is dropped, and so is its texture
    let c = parse_face_corners("1 2 3 x/9").unwrap();
    assert_eq!(c.d, None);
    assert_eq!(c.texture, None);
}

#[test]
fn face_line_with_too_few_corners() {
    assert!(matches!(parse_face_corners("1 2"), Err(FileParseError::MissingData)));
    match parse_face_corners("1 apple 3") {
        Err(FileParseError::InvalidDataType(s)) => assert_eq!(s, "apple"),
        other => panic!("unexpected {:?}", other),
    }
}

#[test]
fn obj_lines_are_classified_in_any_case() {
    match classify_obj_line("  F 1 2 3  ") {
        ObjLine::Face(p) => assert_eq!(p, "1 2 3"),
        other => panic!("unexpected {:?}", other),
    }
    match classify_obj_line("v 1.0 2.0 3.0") {
        ObjLine::Vertex(p) => assert_eq!(p, "1.0 2.0 3.0"),
        other => panic!("unexpected {:?}", other),
    }
    match classify_obj_line("VT 0.5 0.25") {
        ObjLine::TextureCoordinate(p) => assert_eq!(p, "0.5 0.25"),
        other => panic!("unexpected {:?}", other),
    }
    match classify_obj_line("MTLLIB Car.MTL") {
        ObjLine::MaterialLibrary(p) => assert_eq!(p, "Car.MTL"),
        other => panic!("unexpected {:?}", other),
    }
    match classify_obj_line("usemtl Paint") {
        ObjLine::UseMaterial(p) => assert_eq!(p, "paint"),
        other => panic!("unexpected {:?}", other),
    }
    assert!(matches!(classify_obj_line("# a comment"), ObjLine::Other));
    assert!(matches!(classify_obj_line("vn 0 0 1"), ObjLine::Other));
    assert!(matches!(classify_obj_line(""), ObjLine::Other));
}

#[test]
fn mtl_lines_are_classified() {
    match classify_mtl_line("newmtl Red") {
        MtlLine::NewMaterial(p) => assert_eq!(p, "red"),
        other => panic!("unexpected {:?}", other),
    }
    match classify_mtl_line("Kd 1 0 0") {
        MtlLine::DiffuseColor(p) => assert_eq!(p, "1 0 0"),
        other => panic!("unexpected {:?}", other),
    }
    match classify_mtl_line("map_Kd Palette.PNG") {
        MtlLine::DiffuseMap(p) => assert_eq!(p, "Palette.PNG"),
        other => panic!("unexpected {:?}", other),
    }
    assert!(matches!(classify_mtl_line("  Kd 1 0 0"), MtlLine::Other));
}

#[test]
fn model_formats_by_extension() {
    assert_eq!(model_format(Some("obj".to_string())).unwrap(), ModelFormat::Obj);
    assert_eq!(model_format(Some("glb".to_string())).unwrap(), ModelFormat::Glb);
    match model_format(Some("txt".to_string())) {
        Err(FileParseError::NotSupportedFileFormat(Some(e))) => assert_eq!(e, "txt"),
        other => panic!("unexpected {:?}", other),
    }
    assert!(matches!(model_format(None), Err(FileParseError::NotSupportedFileFormat(None))));
}

#[test]
fn file_format_is_told_by_extension_in_any_case() {
    assert_eq!(get_file_format("models/car.OBJ").unwrap(), ModelFormat::Obj);
    assert_eq!(get_file_format("scene.glb").unwrap(), ModelFormat::Glb);
    match get_file_format("test-resources/file-parsing/invalid-fileformat.TXT") {
        Err(FileParseError::NotSupportedFileFormat(Some(e))) => assert_eq!(e, "txt"),
        other => panic!("unexpected {:?}", other),
    }
    assert!(matches!(
        get_file_format("folder/"),
        Err(FileParseError::NotSupportedFileFormat(None))
    ));
}

#[test]
fn index_list_makes_triangles_after_the_offset() {
    let t = triangle_corners(&[0, 1, 2, 2, 3, 0, 7], 10);
    assert_eq!(t, vec![(10, 11, 12), (12, 13, 10)]);
    assert!(triangle_corners(&[], 5).is_empty());
}

#[test]
fn face_colors_move_past_the_existing_palette() {
    let mut faces = vec![
        Face { v1: 0, v2: 1, v3: 2, color_id: 1 },
        Face { v1: 2, v2: 3, v3: 0, color_id: 4 },
    ];
    shift_face_colors(&mut faces, 7);
    assert_eq!(
        faces,
        vec![Face { v1: 0, v2: 1, v3: 2, color_id: 8 }, Face { v1: 2, v2: 3, v3: 0, color_id: 11 }]
    );
    let mut none: Vec<Face> = vec![];
    shift_face_colors(&mut none, 3);
    assert!(none.is_empty());
}

#[test]
fn upper_case_extensions_are_recognised() {
    assert!(matches!(get_file_format("models/car.OBJ"), Ok(ModelFormat::Obj)));
    assert!(matches!(get_file_format("models/car.Glb"), Ok(ModelFormat::Glb)));
}
