//! Structured decode failures.

use vstd::prelude::*;

verus! {

/// Why a declared layout is internally inconsistent.
#[derive(Clone, Copy, Debug, PartialEq, Eq, Structural)]
pub enum LayoutIssue {
    /// The file header declares an optional header whose size differs from the
    /// fixed optional-header width.
    OptionalHeaderSizeMismatch,
    /// A section header declares more payload bytes than the whole input holds.
    SectionSizeExceedsInput,
    /// A requested string offset points past the end of a string-table blob.
    StringOffsetOutOfRange,
}

/// A decode failure. The first failure aborts the whole decode; no partial
/// object is ever returned.
#[derive(Clone, Copy, Debug, PartialEq, Eq, Structural)]
pub enum EcoffError {
    /// The requested byte range runs past the end of the input: fewer bytes
    /// were available than a field or record requires, or a declared range
    /// starts beyond the input.
    TruncatedInput { requested: usize, available: usize },
    /// Declared sizes or offsets are internally inconsistent.
    InvalidLayout { reason: LayoutIssue },
}

} // verus!
