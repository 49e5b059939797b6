use vstd::prelude::*;

pub mod builder;
pub mod merge;
pub mod pipeline;
pub mod render;
pub mod table;

verus! {

/// Errors of the counting pipeline.
#[derive(Clone, Copy, Debug, PartialEq, Eq, Structural)]
pub enum RunError {
    /// The configured k-mer length is zero or exceeds a record's sequence length.
    InvalidKmerLen,
    /// Summing occurrence counts would exceed the machine integer range.
    CountOverflow,
}

} // verus!
