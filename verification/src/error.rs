//! Errors of buffer validation, range operations, search and file I/O.
use vstd::prelude::*;
use std::ops::Range;

verus! {

#[verifier::external_type_specification]
#[verifier::external_body]
pub struct ExIoError(std::io::Error);

/// Error type for editor buffer validation, range operations, search and
/// file I/O.
#[derive(Debug)]
pub enum EditorError {
    /// A byte offset lies past the end of the document.
    OutOfBounds {
        /// The requested byte offset.
        offset: usize,
        /// The document length in bytes.
        len: usize,
    },
    /// A row index lies past the last line.
    InvalidRow {
        /// The requested row index.
        row: usize,
        /// The number of lines in the document.
        total_lines: usize,
    },
    /// A range starts after its end or reaches past the document.
    InvalidRange {
        /// The requested byte range.
        range: Range<usize>,
        /// The document length in bytes.
        len: usize,
    },
    /// A byte offset does not fall on a character boundary.
    InvalidCharBoundary {
        /// The offending byte offset.
        offset: usize,
    },
    /// A search was started with an empty pattern.
    EmptySearchPattern,
    /// A regex search pattern did not compile.
    InvalidRegex {
        /// The pattern as the user wrote it.
        pattern: String,
        /// The regex engine's explanation.
        message: String,
    },
    /// An I/O error while reading or writing a file.
    Io(std::io::Error),
}

/// Result of editor operations.
pub type EditorResult<T> = std::result::Result<T, EditorError>;

} // verus!
