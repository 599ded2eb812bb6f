use vstd::prelude::*;

verus! {

/// `std::io::Error`, carried through as it comes; nothing is known of what
/// it holds.
#[verifier::external_type_specification]
#[verifier::external_body]
pub struct ExIoError(std::io::Error);

/// `std::string::FromUtf8Error`, carried through as it comes; nothing is
/// known of what it holds.
#[verifier::external_type_specification]
#[verifier::external_body]
pub struct ExFromUtf8Error(std::string::FromUtf8Error);

/// `regex::Error`, carried through as it comes; nothing is known of what it
/// holds.
#[verifier::external_type_specification]
#[verifier::external_body]
pub struct ExRegexError(regex::Error);

/// Everything that can go wrong while a dictionary is loaded.
///
/// Queries never fail: a word that is not found is an empty answer.
#[derive(Debug)]
pub enum SdError {
    /// A file could not be read, or the content blob could not be inflated.
    IoError(std::io::Error),
    /// A headword of the index is not valid UTF-8.
    FromUtf8Error(std::string::FromUtf8Error),
    /// The pattern for metadata lines was rejected by the regex engine.
    RegexError(regex::Error),
    /// A metadata field is malformed or missing; the payload names it.
    ParseInfoError(&'static str),
    /// The index ends in the middle of a record.
    TruncatedIndex,
    /// An index entry addresses bytes that are no definition in the content
    /// blob: the range leaves the blob or cuts a character in two.
    EntryOutOfBounds,
    /// The dictionary directory holds no content file.
    NoDzError,
    /// The dictionary directory holds no index file.
    NoIdxError,
    /// The dictionary directory holds no metadata file.
    NoIfoError,
}

/// The kind of an [`SdError`]: the error without the value that the
/// underlying library attached to it.
pub enum SdFault {
    Io,
    FromUtf8,
    Regex,
    ParseInfo(Seq<char>),
    TruncatedIndex,
    EntryOutOfBounds,
    NoDz,
    NoIdx,
    NoIfo,
}

impl View for SdError {
    type V = SdFault;

    open spec fn view(&self) -> SdFault {
        match *self {
            SdError::IoError(_) => SdFault::Io,
            SdError::FromUtf8Error(_) => SdFault::FromUtf8,
            SdError::RegexError(_) => SdFault::Regex,
            SdError::ParseInfoError(field) => SdFault::ParseInfo(field@),
            SdError::TruncatedIndex => SdFault::TruncatedIndex,
            SdError::EntryOutOfBounds => SdFault::EntryOutOfBounds,
            SdError::NoDzError => SdFault::NoDz,
            SdError::NoIdxError => SdFault::NoIdx,
            SdError::NoIfoError => SdFault::NoIfo,
        }
    }
}

impl From<std::io::Error> for SdError {
    fn from(error: std::io::Error) -> (converted: Self) {
        SdError::IoError(error)
    }
}

impl vstd::std_specs::convert::FromSpecImpl<std::io::Error> for SdError {
    open spec fn obeys_from_spec() -> bool {
        true
    }

    open spec fn from_spec(error: std::io::Error) -> Self {
        SdError::IoError(error)
    }
}

impl From<std::string::FromUtf8Error> for SdError {
    fn from(error: std::string::FromUtf8Error) -> (converted: Self) {
        SdError::FromUtf8Error(error)
    }
}

impl vstd::std_specs::convert::FromSpecImpl<std::string::FromUtf8Error> for SdError {
    open spec fn obeys_from_spec() -> bool {
        true
    }

    open spec fn from_spec(error: std::string::FromUtf8Error) -> Self {
        SdError::FromUtf8Error(error)
    }
}

impl From<regex::Error> for SdError {
    fn from(error: regex::Error) -> (converted: Self) {
        SdError::RegexError(error)
    }
}

impl vstd::std_specs::convert::FromSpecImpl<regex::Error> for SdError {
    open spec fn obeys_from_spec() -> bool {
        true
    }

    open spec fn from_spec(error: regex::Error) -> Self {
        SdError::RegexError(error)
    }
}

impl SdError {
    /// A one-line description of the error.
    pub fn describe(&self) -> (text: &'static str)
        ensures
            text@ == match self@ {
                SdFault::Io => "The error type of I/O operations."@,
                SdFault::FromUtf8 => {
                    "A possible error value when converting a String from a UTF-8 byte vector."@
                },
                SdFault::Regex => {
                    "An error that occurred during parsing or compiling a regular expression."@
                },
                SdFault::ParseInfo(_) => "An error when parsing .ifo file"@,
                SdFault::TruncatedIndex => "The .idx file ends inside a record"@,
                SdFault::EntryOutOfBounds => {
                    "An index entry points outside the dictionary content"@
                },
                SdFault::NoDz => "No .dz file in the dictionary directory"@,
                SdFault::NoIdx => "No .idx file in the dictionary directory"@,
                SdFault::NoIfo => "No .ifo file in the dictionary directory"@,
            },
    {
        match self {
            SdError::IoError(_) => "The error type of I/O operations.",
            SdError::FromUtf8Error(_) => {
                "A possible error value when converting a String from a UTF-8 byte vector."
            },
            SdError::RegexError(_) => {
                "An error that occurred during parsing or compiling a regular expression."
            },
            SdError::ParseInfoError(_) => "An error when parsing .ifo file",
            SdError::TruncatedIndex => "The .idx file ends inside a record",
            SdError::EntryOutOfBounds => "An index entry points outside the dictionary content",
            SdError::NoDzError => "No .dz file in the dictionary directory",
            SdError::NoIdxError => "No .idx file in the dictionary directory",
            SdError::NoIfoError => "No .ifo file in the dictionary directory",
        }
    }
}

} // verus!
