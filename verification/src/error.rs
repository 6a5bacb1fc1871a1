use vstd::prelude::*;

use crate::text::{decimal, push_decimal};

verus! {

/// `std::io::Error`, carried as it is.
#[verifier::external_type_specification]
#[verifier::external_body]
pub struct ExIoError(std::io::Error);

/// Calls `ToString::to_string` on an I/O error. Nothing is claimed of the
/// text: `Display` of `std::io::Error` may hold a message of the operating
/// system.
#[verifier::external_body]
fn io_error_text(err: &std::io::Error) -> String {
    err.to_string()
}

/// Why a model file could not be parsed.
#[derive(Debug)]
pub enum FileParseError {
    MissingData,
    MissingPoint,
    InvalidDataType(String),
    DataOutOfBounds(usize),
    MissingCoordinate,
    FailedLineParse(usize, Box<FileParseError>),
    IoError(std::io::Error),
    NotSupportedFileFormat(Option<String>),
}

/// `text` is `pre`, then some text, then `post`.
pub open spec fn framed(text: Seq<char>, pre: Seq<char>, post: Seq<char>) -> bool {
    &&& text.len() >= pre.len() + post.len()
    &&& text.subrange(0, pre.len() as int) == pre
    &&& text.subrange(text.len() - post.len(), text.len() as int) == post
}

/// What `framed` leaves between `pre` and `post`.
pub open spec fn frame_inside(text: Seq<char>, pre: Seq<char>, post: Seq<char>) -> Seq<char> {
    text.subrange(pre.len() as int, text.len() - post.len())
}

/// `text` is the message of the parse error `e`; the text of an I/O error
/// inside it is left open.
pub open spec fn parse_error_text(e: FileParseError, text: Seq<char>) -> bool
    decreases e,
{
    match e {
        FileParseError::MissingData => text == "Missing data to parse"@,
        FileParseError::MissingPoint => text == "Missing point to parse"@,
        FileParseError::InvalidDataType(s) => text == "Failed to parse data for '"@ + s@
            + "', invalid type"@,
        FileParseError::DataOutOfBounds(u) => text == "Index '"@ + decimal(u as nat)
            + "' is out of bounds"@,
        FileParseError::MissingCoordinate => text == "Missing coordinate to parse"@,
        FileParseError::FailedLineParse(u, inner) => {
            let pre = "Failed to parse line '"@ + decimal(u as nat) + "' due to error '"@;
            &&& framed(text, pre, "'"@)
            &&& parse_error_text(*inner, frame_inside(text, pre, "'"@))
        },
        FileParseError::IoError(_) => framed(text, "Failed due to Io Error '"@, "'"@),
        FileParseError::NotSupportedFileFormat(Some(f)) => text
            == "Could not parse file, the '"@ + f@ + "' format is not supported yet"@,
        FileParseError::NotSupportedFileFormat(None) => text
            == "The input you selected is not a file and could not be parsed"@,
    }
}

impl From<std::io::Error> for FileParseError {
    fn from(err: std::io::Error) -> (r: Self) {
        FileParseError::IoError(err)
    }
}

impl vstd::std_specs::convert::FromSpecImpl<std::io::Error> for FileParseError {
    open spec fn obeys_from_spec() -> bool {
        true
    }

    open spec fn from_spec(err: std::io::Error) -> Self {
        FileParseError::IoError(err)
    }
}

/// The message of an error that holds no other parse error.
fn flat_message(e: &FileParseError) -> (r: String)
    requires
        !(*e is FailedLineParse),
    ensures
        parse_error_text(*e, r@),
{
    match e {
        FileParseError::MissingData => String::from_str("Missing data to parse"),
        FileParseError::MissingPoint => String::from_str("Missing point to parse"),
        FileParseError::InvalidDataType(s) => {
            let mut r = String::from_str("Failed to parse data for '");
            r.append(s.as_str());
            r.append("', invalid type");
            r
        },
        FileParseError::DataOutOfBounds(u) => {
            let mut r = String::from_str("Index '");
            push_decimal(&mut r, *u);
            r.append("' is out of bounds");
            r
        },
        FileParseError::MissingCoordinate => String::from_str("Missing coordinate to parse"),
        FileParseError::IoError(error) => {
            let inner = io_error_text(error);
            let mut r = String::from_str("Failed due to Io Error '");
            r.append(inner.as_str());
            r.append("'");
            proof {
                let pre = "Failed due to Io Error '"@;
                assert(r@ == pre + inner@ + "'"@);
                assert(r@.subrange(0, pre.len() as int) =~= pre);
                assert(r@.subrange(r@.len() - "'"@.len(), r@.len() as int) =~= "'"@);
            }
            r
        },
        FileParseError::NotSupportedFileFormat(option) => {
            if let Some(format) = option {
                let mut r = String::from_str("Could not parse file, the '");
                r.append(format.as_str());
                r.append("' format is not supported yet");
                r
            } else {
                String::from_str("The input you selected is not a file and could not be parsed")
            }
        },
        FileParseError::FailedLineParse(_, _) => String::new(),
    }
}

impl FileParseError {
    /// The message of the error.
    pub fn message(&self) -> (r: String)
        ensures
            parse_error_text(*self, r@),
        decreases self,
    {
        match self {
            FileParseError::FailedLineParse(u, error) => {
                let inner = error.message();
                let mut r = String::from_str("Failed to parse line '");
                push_decimal(&mut r, *u);
                r.append("' due to error '");
                r.append(inner.as_str());
                r.append("'");
                proof {
                    let pre = "Failed to parse line '"@ + decimal(*u as nat) + "' due to error '"@;
                    assert(r@ == pre + inner@ + "'"@);
                    assert(r@.subrange(0, pre.len() as int) =~= pre);
                    assert(r@.subrange(r@.len() - "'"@.len(), r@.len() as int) =~= "'"@);
                    assert(frame_inside(r@, pre, "'"@) =~= inner@);
                }
                r
            },
            _ => flat_message(self),
        }
    }
}

/// Why a world could not be saved or loaded.
#[derive(Debug)]
pub enum SaveAndLoadError {
    IoError(std::io::Error),
    NotSupportedFileFormat(Option<String>),
}

/// `text` is the message of the save or load error `e`; the text of an I/O
/// error is left open.
pub open spec fn save_load_error_text(e: SaveAndLoadError, text: Seq<char>) -> bool {
    match e {
        SaveAndLoadError::IoError(_) => framed(text, "Failed due to Io Error '"@, "'"@),
        SaveAndLoadError::NotSupportedFileFormat(Some(f)) => text
            == "Could not parse file, the '"@ + f@ + "' format is not supported yet"@,
        SaveAndLoadError::NotSupportedFileFormat(None) => text
            == "The input you selected is not a file and could not be parsed"@,
    }
}

impl From<std::io::Error> for SaveAndLoadError {
    fn from(err: std::io::Error) -> (r: Self) {
        SaveAndLoadError::IoError(err)
    }
}

impl vstd::std_specs::convert::FromSpecImpl<std::io::Error> for SaveAndLoadError {
    open spec fn obeys_from_spec() -> bool {
        true
    }

    open spec fn from_spec(err: std::io::Error) -> Self {
        SaveAndLoadError::IoError(err)
    }
}

impl SaveAndLoadError {
    /// The message of the error.
    pub fn message(&self) -> (r: String)
        ensures
            save_load_error_text(*self, r@),
    {
        match self {
            SaveAndLoadError::IoError(error) => {
                let inner = io_error_text(error);
                let mut r = String::from_str("Failed due to Io Error '");
                r.append(inner.as_str());
                r.append("'");
                proof {
                    let pre = "Failed due to Io Error '"@;
                    assert(r@ == pre + inner@ + "'"@);
                    assert(r@.subrange(0, pre.len() as int) =~= pre);
                    assert(r@.subrange(r@.len() - "'"@.len(), r@.len() as int) =~= "'"@);
                }
                r
            },
            SaveAndLoadError::NotSupportedFileFormat(option) => {
                if let Some(format) = option {
                    let mut r = String::from_str("Could not parse file, the '");
                    r.append(format.as_str());
                    r.append("' format is not supported yet");
                    r
                } else {
                    String::from_str("The input you selected is not a file and could not be parsed")
                }
            },
        }
    }
}

} // verus!
