use raycaster::cli::{color_target, parse_command, CliCommand, ColorTarget};
use raycaster::input::{Key, KeyPresses};

#[test]
fn commands_are_read_by_their_words() {
    assert!(matches!(parse_command("quit"), Some(CliCommand::Quit)));
    assert!(matches!(parse_command("  exit  "), Some(CliCommand::Quit)));
    match parse_command("parse models/house.obj 32") {
        Some(CliCommand::Parse { path, min_width }) => {
            assert_eq!(path, "models/house.obj");
            assert_eq!(min_width, 32);
        }
        other => panic!("unexpected {:?}", other),
    }
    assert!(parse_command("parse models/house.obj big").is_none());
    match parse_command("save saves/world1.bin") {
        Some(CliCommand::Save(p)) => assert_eq!(p, "saves/world1.bin"),
        other => panic!("unexpected {:?}", other),
    }
    match parse_command("load saves/world1.bin") {
        Some(CliCommand::Load(p)) => assert_eq!(p, "saves/world1.bin"),
        other => panic!("unexpected {:?}", other),
    }
    assert!(matches!(parse_command("colors"), Some(CliCommand::PrintColors)));
    match parse_command("change_color 1 1.0 0.0 0.0 1.0") {
        Some(CliCommand::ChangeColor { i, r, g, b, a }) => {
            assert_eq!((i.as_str(), r.as_str(), g.as_str(), b.as_str(), a.as_str()), ("1", "1.0", "0.0", "0.0", "1.0"));
        }
        other => panic!("unexpected {:?}", other),
    }
    match parse_command("time 0.5 0.1") {
        Some(CliCommand::Time { time, speed }) => assert_eq!((time.as_str(), speed.as_str()), ("0.5", "0.1")),
        other => panic!("unexpected {:?}", other),
    }
    assert!(matches!(parse_command("help"), Some(CliCommand::Help)));
    assert!(matches!(parse_command("clear"), Some(CliCommand::Clear)));
    assert!(matches!(parse_command("worldgen ON"), Some(CliCommand::Worldgen(true))));
    assert!(matches!(parse_command("worldgen off"), Some(CliCommand::Worldgen(false))));
    assert!(parse_command("worldgen maybe").is_none());
    assert!(parse_command("").is_none());
    assert!(parse_command("quit now").is_none());
    assert!(parse_command("Quit").is_none());
}

#[test]
fn key_presses_track_each_key() {
    let mut k = KeyPresses::new();
    assert!(!k.W && !k.Space && !k.Right);
    k.set(Key::W, true);
    k.set(Key::Right, true);
    assert!(k.W && k.Right && !k.A);
    k.set(Key::W, false);
    assert!(!k.W && k.Right);
}

#[test]
fn color_index_words_name_their_colors() {
    assert_eq!(color_target("a", 3), ColorTarget::All);
    assert_eq!(color_target("b", 3), ColorTarget::AllReflectivity);
    assert_eq!(color_target("2", 3), ColorTarget::One(2));
    assert_eq!(color_target("+0", 3), ColorTarget::One(0));
    assert_eq!(color_target("3", 3), ColorTarget::OutOfBounds(3));
    assert_eq!(color_target("0", 0), ColorTarget::OutOfBounds(0));
    assert_eq!(color_target("A", 3), ColorTarget::Invalid);
    assert_eq!(color_target("-1", 3), ColorTarget::Invalid);
    assert_eq!(color_target("", 3), ColorTarget::Invalid);
}

#[test]
fn worldgen_switch_is_read_in_any_case() {
    assert!(matches!(parse_command("worldgen ON"), Some(CliCommand::Worldgen(true))));
    assert!(matches!(parse_command("worldgen Off"), Some(CliCommand::Worldgen(false))));
    assert!(parse_command("worldgen maybe").is_none());
}
