//! Random-access, paginated reading of very large delimited-text files.
//!
//! The crate is the storage and indexing engine of a tabular-file viewer: a
//! byte scanner, a record parser, a sparse row-offset index with its
//! persistence framing and validation, a row estimator, a bounded page cache
//! and the reader that ties them together. Everything works on byte slices;
//! mapping a file into memory is left to the caller.

pub mod csv;
pub mod error;
