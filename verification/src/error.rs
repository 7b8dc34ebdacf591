//! Errors of this crate.

use vstd::prelude::*;

verus! {

/// Everything that can go wrong while locating a document, decoding it,
/// looking a part up or compiling its rules.
#[derive(Clone, Debug, PartialEq, Eq)]
pub enum Error {
    /// The text is not a TOML document. `message` is the parser's report.
    TomlDecode { message: String },
    /// A table on the key path does not hold the key `keys`.
    KeysNotFound { keys: String, path: String },
    /// A value on the key path is not a table.
    ValueIsNotTable { path: String },
    /// None of the conventional sources holds a document.
    NoConfigFileFound,
    /// The path of a user-given source does not exist.
    ConfigFileDoesNotExist { value: String },
    /// The document holds no part of that name.
    UnknownPart { part: String },
    /// The value to decode as a document is not a table.
    DocumentIsNotTable,
    /// `default` is there but is not a string.
    DefaultIsNotString,
    /// The value under the name `part` is not a table.
    PartIsNotTable { part: String },
    /// The table of `part` holds a field that no part has.
    UnknownField { part: String, field: String },
    /// The field `field` of `part` holds a value of the wrong type.
    InvalidField { part: String, field: String },
    /// Two entries of the document have the name `part`.
    DuplicatePart { part: String },
    /// `pattern` is not a glob.
    InvalidGlob { pattern: String },
    /// `pattern` is not a regular expression.
    InvalidRegex { pattern: String },
    /// Each pattern compiles alone, but not all of them as one set.
    PatternSetTooLarge,
}

/// What an [`Error`] says, with strings as sequences of characters. The
/// parser's report is left out: it is for people to read.
pub enum ErrorView {
    TomlDecode,
    KeysNotFound { keys: Seq<char>, path: Seq<char> },
    ValueIsNotTable { path: Seq<char> },
    NoConfigFileFound,
    ConfigFileDoesNotExist { value: Seq<char> },
    UnknownPart { part: Seq<char> },
    DocumentIsNotTable,
    DefaultIsNotString,
    PartIsNotTable { part: Seq<char> },
    UnknownField { part: Seq<char>, field: Seq<char> },
    InvalidField { part: Seq<char>, field: Seq<char> },
    DuplicatePart { part: Seq<char> },
    InvalidGlob { pattern: Seq<char> },
    InvalidRegex { pattern: Seq<char> },
    PatternSetTooLarge,
}

impl View for Error {
    type V = ErrorView;

    open spec fn view(&self) -> ErrorView {
        match *self {
            Error::TomlDecode { message } => ErrorView::TomlDecode,
            Error::KeysNotFound { keys, path } => ErrorView::KeysNotFound { keys: keys@, path: path@ },
            Error::ValueIsNotTable { path } => ErrorView::ValueIsNotTable { path: path@ },
            Error::NoConfigFileFound => ErrorView::NoConfigFileFound,
            Error::ConfigFileDoesNotExist { value } => ErrorView::ConfigFileDoesNotExist { value: value@ },
            Error::UnknownPart { part } => ErrorView::UnknownPart { part: part@ },
            Error::DocumentIsNotTable => ErrorView::DocumentIsNotTable,
            Error::DefaultIsNotString => ErrorView::DefaultIsNotString,
            Error::PartIsNotTable { part } => ErrorView::PartIsNotTable { part: part@ },
            Error::UnknownField { part, field } => ErrorView::UnknownField { part: part@, field: field@ },
            Error::InvalidField { part, field } => ErrorView::InvalidField { part: part@, field: field@ },
            Error::DuplicatePart { part } => ErrorView::DuplicatePart { part: part@ },
            Error::InvalidGlob { pattern } => ErrorView::InvalidGlob { pattern: pattern@ },
            Error::InvalidRegex { pattern } => ErrorView::InvalidRegex { pattern: pattern@ },
            Error::PatternSetTooLarge => ErrorView::PatternSetTooLarge,
        }
    }
}

impl ErrorView {
    /// A malformed document ends discovery at once: it shows a mistake in a
    /// file that exists. Every other failure of a candidate lets discovery go
    /// on to the next one.
    pub open spec fn is_fatal(self) -> bool {
        self is TomlDecode
    }
}

impl Error {
    /// Whether this error ends discovery at once.
    pub fn is_fatal(&self) -> (fatal: bool)
        ensures
            fatal == self@.is_fatal(),
    {
        match self {
            Error::TomlDecode { .. } => true,
            _ => false,
        }
    }
}

} // verus!
