//! The error type shared by every fallible operation of the crate.

use vstd::prelude::*;

verus! {

/// What can go wrong while opening, indexing, reading or editing a file.
#[derive(Debug, Clone)]
pub enum CsvError {
    /// The underlying file system or mapping failed.
    Io(String),
    /// A record could not be interpreted.
    Parse(String),
    /// A row beyond the known rows was asked for.
    IndexOutOfBounds { row: usize, total_rows: usize },
    /// The source could not be mapped into memory.
    Mmap(String),
    /// The content does not have the expected shape.
    Format(String),
    /// The persisted index could not be written, read or understood.
    IndexFile(String),
}

/// Shorthand for results whose error is a [`CsvError`].
pub type Result<T> = std::result::Result<T, CsvError>;

} // verus!
