use vstd::prelude::*;

verus! {

/// A line of the source file, counted from 1.
pub type LineNumber = u64;

/// A column, or a number of spaces of indentation.
pub type ColNumber = u32;

/// A byte offset into the source file.
pub type SourceOffset = usize;

} // verus!
