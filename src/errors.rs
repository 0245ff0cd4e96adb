//! Errors raised while reading, parsing and editing source lists.
use vstd::prelude::*;

verus! {

/// Relies on `std::io::Error` as an opaque value: I/O failures are carried
/// unchanged inside the library's errors.
#[verifier::external_type_specification]
#[verifier::external_body]
pub struct ExIoError(std::io::Error);

/// An error that may occur when parsing or editing apt sources.
#[derive(Debug)]
#[allow(inconsistent_fields)]
pub enum SourceError {
    /// An I/O failure.
    Io(std::io::Error),
    /// A required field of an entry is absent.
    MissingField { field: &'static str },
    /// A field holds a value that is not accepted for it.
    InvalidValue { field: &'static str, value: String },
    /// No entry with the requested url exists.
    EntryNotFound,
    /// Writing the changes of a file failed.
    EntryWrite { path: String, why: std::io::Error },
    /// No file with the requested path exists.
    FileNotFound,
    /// A source list could not be parsed.
    SourcesList { path: String, why: Box<SourcesListError> },
    /// A source list could not be opened or read.
    SourcesListOpen { path: String, why: std::io::Error },
}

/// An error located in one source list.
#[derive(Debug)]
pub enum SourcesListError {
    /// The line with this 0-based number could not be parsed.
    BadLine { line: usize, why: SourceError },
}

/// Equivalent to `Result<T, SourceError>`.
pub type SourceResult<T> = Result<T, SourceError>;

/// A failure of the entry grammar, over plain values.
pub ghost enum GrammarError {
    /// The field with this name is absent.
    Missing(Seq<char>),
    /// The field with this name holds this unaccepted value.
    Invalid(Seq<char>, Seq<char>),
}

/// The grammar failure that `e` reports, if it is one.
pub open spec fn grammar_view(e: SourceError) -> Option<GrammarError> {
    match e {
        SourceError::MissingField { field } => Some(GrammarError::Missing(field@)),
        SourceError::InvalidValue { field, value } => Some(GrammarError::Invalid(field@, value@)),
        _ => None,
    }
}

} // verus!
