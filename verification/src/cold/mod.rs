//! Cold storage of evicted symbols in Parquet files.

pub mod columns;
pub mod file;
pub mod names;

use vstd::prelude::*;

verus! {

/// Why candles could not be written to or read from a cold file.
#[derive(Debug)]
pub enum SpillError {
    /// A file could not be read or written; the operating system's message.
    Io(String),
    /// The columns do not make a table, or a table could not be read.
    Arrow(arrow::error::ArrowError),
    /// The bytes are not a Parquet file, or could not be written as one.
    Parquet(parquet::errors::ParquetError),
    /// The file was written under a later schema than this library knows.
    IncompatibleVersion { found: u32, supported: u32 },
    /// The file lacks a required column of the expected type.
    MissingColumn { name: String },
}

} // verus!
