use raycaster::error::{FileParseError, SaveAndLoadError};
use raycaster::file_handler::{check_world_format, world_file_format};

#[test]
fn parse_error_messages() {
    assert_eq!(FileParseError::MissingData.message(), "Missing data to parse");
    assert_eq!(FileParseError::MissingPoint.message(), "Missing point to parse");
    assert_eq!(
        FileParseError::InvalidDataType("apple".to_string()).message(),
        "Failed to parse data for 'apple', invalid type"
    );
    assert_eq!(FileParseError::DataOutOfBounds(20).message(), "Index '20' is out of bounds");
    assert_eq!(FileParseError::MissingCoordinate.message(), "Missing coordinate to parse");
    assert_eq!(
        FileParseError::NotSupportedFileFormat(Some("txt".to_string())).message(),
        "Could not parse file, the 'txt' format is not supported yet"
    );
    assert_eq!(
        FileParseError::NotSupportedFileFormat(None).message(),
        "The input you selected is not a file and could not be parsed"
    );
}

#[test]
fn nested_line_error_message() {
    let e = FileParseError::FailedLineParse(20, Box::new(FileParseError::DataOutOfBounds(0)));
    assert_eq!(
        e.message(),
        "Failed to parse line '20' due to error 'Index '0' is out of bounds'"
    );
}

#[test]
fn io_error_messages_are_framed() {
    let io = std::io::Error::new(std::io::ErrorKind::NotFound, "gone");
    let m = FileParseError::from(io).message();
    assert!(m.starts_with("Failed due to Io Error '"));
    assert!(m.ends_with("gone'"));
    let io = std::io::Error::new(std::io::ErrorKind::NotFound, "gone");
    let m = SaveAndLoadError::from(io).message();
    assert_eq!(m, "Failed due to Io Error 'gone'");
}

#[test]
fn world_files_must_be_bin() {
    assert!(world_file_format("save/world.bin").is_ok());
    assert!(world_file_format("save/world.BIN").is_ok());
    match world_file_format("world.json") {
        Err(SaveAndLoadError::NotSupportedFileFormat(Some(e))) => assert_eq!(e, "json"),
        other => panic!("unexpected {:?}", other),
    }
    assert!(matches!(
        check_world_format(None),
        Err(SaveAndLoadError::NotSupportedFileFormat(None))
    ));
    assert_eq!(
        SaveAndLoadError::NotSupportedFileFormat(Some("json".to_string())).message(),
        "Could not parse file, the 'json' format is not supported yet"
    );
}

#[test]
fn world_files_are_told_by_extension_in_any_case() {
    assert!(world_file_format("saves/world.BIN").is_ok());
    assert!(matches!(
        world_file_format("saves/world.Dat"),
        Err(SaveAndLoadError::NotSupportedFileFormat(Some(e))) if e == "dat"
    ));
}
