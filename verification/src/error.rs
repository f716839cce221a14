use vstd::prelude::*;

verus! {

/// Why a conversion was refused.
///
/// `depth` counts the sequences that were open around the offending value,
/// so the outermost value sits at depth 0.
#[derive(Debug, Clone, Copy, PartialEq, Eq, Structural)]
pub enum Error {
    /// A sequence was nested deeper than the shape holder allows.
    MaxDimsExceeded { max_dims: usize },
    /// The first number was met at a depth below what the shape holder needs.
    MinDimsNotReached { min_dims: usize, found: usize },
    /// A sequence stands where the shape asks for a number.
    UnexpectedSequence { depth: usize },
    /// A scalar stands where the shape asks for a sequence; `number` tells
    /// whether the scalar is a number.
    UnexpectedScalar { depth: usize, number: bool },
    /// A sequence ended before it had as many items as its dimension is long.
    TooFewElements { depth: usize, expected: usize, found: usize },
    /// A sequence held more items than its dimension is long.
    TrailingElements { depth: usize, expected: usize },
    /// A scalar at the depth of the numbers is not a number.
    InvalidLeafType { depth: usize },
    /// A shape without dimensions was given to be written out.
    ArrayMustBeAtLeastOneDimensional,
    /// The elements were asked for as one contiguous run and are not stored so.
    NotContiguous,
}

} // verus!
