use vstd::prelude::*;

verus! {

/// Why an analysis gave no result. Every analysis is all or nothing.
#[derive(Clone, Copy, Debug, PartialEq, Eq, Structural)]
pub enum AnalysisError {
    /// A required section is missing or wrongly shaped, or the stack-size
    /// byte stream does not end on a record boundary.
    MalformedInput,
    /// Symbol table, sections and relocations do not agree with each other.
    InconsistentData,
    /// The file is not of the kind that the operation reads.
    UnsupportedFormat,
}

} // verus!
