//! The errors that the library reports.
use vstd::prelude::*;

verus! {

/// Why an operation of the library failed.
#[derive(Debug, Clone, PartialEq, Eq)]
pub enum AppError {
    /// The given path does not exist or is not a directory.
    InvalidPath(String),
    /// The query holds no term to search for.
    EmptyQuery,
    /// No index file was found at the given place.
    IndexNotFound(String),
    /// The directory holds no `.md` or `.txt` file.
    NoSupportedFiles(String),
}

/// The result type of the library.
pub type Result<T> = std::result::Result<T, AppError>;

} // verus!
