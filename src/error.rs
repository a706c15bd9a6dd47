use vstd::prelude::*;

verus! {

/// Why a ring or a surface could not be generated.
#[derive(Debug, Clone, Copy, PartialEq, Eq, Structural)]
pub enum MeshError {
    /// The sampling domain is empty: its start does not lie below its end.
    InvalidRange,
    /// A count lies below its minimum (fewer than three vertices, no layer).
    InvalidParameter,
}

} // verus!
