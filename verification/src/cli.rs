use vstd::prelude::*;

use crate::text::{
    ascii_lowercase, chars_of, is_ascii_text, lowercase, lowercase_of, parse_usize, parses_as_usize, split_words, usize_value,
    words,
};

verus! {

/// A command typed at the prompt. The numbers of `change_color` and `time`
/// are kept as the words that were typed; they are read as floating-point
/// numbers where the command is run.
#[derive(Debug)]
pub enum CliCommand {
    Quit,
    Parse { path: String, min_width: usize },
    Save(String),
    Load(String),
    PrintColors,
    ChangeColor { i: String, r: String, g: String, b: String, a: String },
    Time { time: String, speed: String },
    Help,
    Clear,
    Worldgen(bool),
}

/// What `parse_command` makes of the line `input`: its words, separated by
/// white space, name a command and give its arguments.
pub open spec fn command_result(input: Seq<char>, r: Option<CliCommand>) -> bool {
    let ws = words(input);
    let n = ws.len();
    if n == 1 && (ws[0] == "quit"@ || ws[0] == "exit"@) {
        r matches Some(CliCommand::Quit)
    } else if n == 3 && ws[0] == "parse"@ {
        if parses_as_usize(ws[2]) {
            r matches Some(CliCommand::Parse { path, min_width }) && path@ == ws[1] && min_width
                == usize_value(ws[2])
        } else {
            r is None
        }
    } else if n == 2 && ws[0] == "save"@ {
        r matches Some(CliCommand::Save(p)) && p@ == ws[1]
    } else if n == 2 && ws[0] == "load"@ {
        r matches Some(CliCommand::Load(p)) && p@ == ws[1]
    } else if n == 1 && ws[0] == "colors"@ {
        r matches Some(CliCommand::PrintColors)
    } else if n == 6 && ws[0] == "change_color"@ {
        r matches Some(CliCommand::ChangeColor { i, r: red, g, b, a }) && i@ == ws[1] && red@
            == ws[2] && g@ == ws[3] && b@ == ws[4] && a@ == ws[5]
    } else if n == 3 && ws[0] == "time"@ {
        r matches Some(CliCommand::Time { time, speed }) && time@ == ws[1] && speed@ == ws[2]
    } else if n == 1 && ws[0] == "help"@ {
        r matches Some(CliCommand::Help)
    } else if n == 1 && ws[0] == "clear"@ {
        r matches Some(CliCommand::Clear)
    } else if n == 2 && ws[0] == "worldgen"@ {
        if lowercase_of(ws[1]) == "on"@ {
            r matches Some(CliCommand::Worldgen(true))
        } else if lowercase_of(ws[1]) == "off"@ {
            r matches Some(CliCommand::Worldgen(false))
        } else {
            r is None
        }
    } else {
        r is None
    }
}

/// Whether the string `s` is the literal `lit`.
fn word_is(s: &str, lit: &str) -> (r: bool)
    ensures
        r == (s@ == lit@),
{
    let a = String::from_str(s);
    let b = String::from_str(lit);
    a == b
}

/// Reads a command line.
pub fn parse_command(input: &str) -> (r: Option<CliCommand>)
    ensures
        command_result(input@, r),
        words(input@).len() == 2 && words(input@)[0] == "worldgen"@ && is_ascii_text(
            words(input@)[1],
        ) ==> lowercase_of(words(input@)[1]) == ascii_lowercase(words(input@)[1]),
{
    let parts = split_words(input);
    let n = parts.len();
    assert(n > 0 ==> parts[0]@ == words(input@)[0]);
    proof {
        reveal_strlit("quit");
        reveal_strlit("exit");
        reveal_strlit("parse");
        reveal_strlit("save");
        reveal_strlit("load");
        reveal_strlit("colors");
        reveal_strlit("change_color");
        reveal_strlit("time");
        reveal_strlit("help");
        reveal_strlit("clear");
        reveal_strlit("worldgen");
    }
    if n == 0 {
        return None;
    }
    let first = parts[0];
    if n == 1 && (word_is(first, "quit") || word_is(first, "exit")) {
        Some(CliCommand::Quit)
    } else if n == 3 && word_is(first, "parse") {
        let digits = chars_of(parts[2]);
        match parse_usize(&digits) {
            Some(min_width) => Some(CliCommand::Parse { path: String::from_str(parts[1]), min_width }),
            None => None,
        }
    } else if n == 2 && word_is(first, "save") {
        Some(CliCommand::Save(String::from_str(parts[1])))
    } else if n == 2 && word_is(first, "load") {
        Some(CliCommand::Load(String::from_str(parts[1])))
    } else if n == 1 && word_is(first, "colors") {
        Some(CliCommand::PrintColors)
    } else if n == 6 && word_is(first, "change_color") {
        Some(
            CliCommand::ChangeColor {
                i: String::from_str(parts[1]),
                r: String::from_str(parts[2]),
                g: String::from_str(parts[3]),
                b: String::from_str(parts[4]),
                a: String::from_str(parts[5]),
            },
        )
    } else if n == 3 && word_is(first, "time") {
        Some(
            CliCommand::Time {
                time: String::from_str(parts[1]),
                speed: String::from_str(parts[2]),
            },
        )
    } else if n == 1 && word_is(first, "help") {
        Some(CliCommand::Help)
    } else if n == 1 && word_is(first, "clear") {
        Some(CliCommand::Clear)
    } else if n == 2 && word_is(first, "worldgen") {
        let on = lowercase(parts[1]);
        assert(parts[1]@ == words(input@)[1]);
        if word_is(on.as_str(), "on") {
            Some(CliCommand::Worldgen(true))
        } else if word_is(on.as_str(), "off") {
            Some(CliCommand::Worldgen(false))
        } else {
            None
        }
    } else {
        None
    }
}

/// Which colors a `change_color` command changes.
#[derive(Clone, Copy, Debug, PartialEq, Eq, Structural)]
pub enum ColorTarget {
    /// `a`: every color, all four of its values.
    All,
    /// `b`: the reflectivity of every color.
    AllReflectivity,
    /// A number below the palette's length: the color at that index.
    One(usize),
    /// A number that is no index of the palette.
    OutOfBounds(usize),
    /// Neither a letter above nor a number.
    Invalid,
}

/// The colors that the index word `i` of `change_color` names, in a palette
/// of `n` colors.
pub open spec fn color_target_of(i: Seq<char>, n: nat) -> ColorTarget {
    if i == "a"@ {
        ColorTarget::All
    } else if i == "b"@ {
        ColorTarget::AllReflectivity
    } else if parses_as_usize(i) {
        if usize_value(i) < n {
            ColorTarget::One(usize_value(i) as usize)
        } else {
            ColorTarget::OutOfBounds(usize_value(i) as usize)
        }
    } else {
        ColorTarget::Invalid
    }
}

/// Reads the index word of a `change_color` command, for a palette of
/// `n_colors` colors.
pub fn color_target(i: &str, n_colors: usize) -> (r: ColorTarget)
    ensures
        r == color_target_of(i@, n_colors as nat),
{
    if word_is(i, "a") {
        ColorTarget::All
    } else if word_is(i, "b") {
        ColorTarget::AllReflectivity
    } else {
        let digits = chars_of(i);
        match parse_usize(&digits) {
            Some(idx) => {
                if idx < n_colors {
                    ColorTarget::One(idx)
                } else {
                    ColorTarget::OutOfBounds(idx)
                }
            },
            None => ColorTarget::Invalid,
        }
    }
}

} // verus!
