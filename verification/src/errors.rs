//! The resolution error taxonomy.
//!
//! Every failure of resolution or of the dimension algebra is one of these
//! structured diagnostics; all are unrecoverable for the compilation at hand.

use vstd::prelude::*;
use crate::dimension_math::ExponentVector;

verus! {

/// A structured resolution diagnostic.
#[derive(Debug, PartialEq, Eq)]
pub enum ResolveError {
    /// An expression names an identifier that no declared dimension, unit or
    /// constant carries: the referencing entry and the unresolved name.
    UnknownReference { entry: String, reference: String },
    /// A definition depends on itself: the ordered chain of names from the
    /// cycle's entry point back to itself.
    CyclicDefinition { chain: Vec<String> },
    /// An explicit dimension annotation disagrees with the inferred
    /// dimension.
    DimensionMismatch { entry: String, declared: ExponentVector, inferred: ExponentVector },
    /// A root was taken of a vector with a component that is not divisible by
    /// the root's degree: the offending base dimension's index and exponent.
    InvalidRootOperation { axis: usize, exponent: i64 },
    /// Two entries format to the same unit symbol.
    DuplicateSymbol { symbol: String, first: String, second: String },
    /// An exponent left the range of the exponent type while resolving the
    /// named entry; a machine limit of the exponent representation.
    ExponentOverflow { entry: String },
}

/// The mathematical value of a `ResolveError`.
pub enum ResolveErrorValue {
    UnknownReference { entry: Seq<char>, reference: Seq<char> },
    CyclicDefinition { chain: Seq<Seq<char>> },
    DimensionMismatch { entry: Seq<char>, declared: Seq<int>, inferred: Seq<int> },
    InvalidRootOperation { axis: int, exponent: int },
    DuplicateSymbol { symbol: Seq<char>, first: Seq<char>, second: Seq<char> },
    ExponentOverflow { entry: Seq<char> },
}

impl View for ResolveError {
    type V = ResolveErrorValue;

    open spec fn view(&self) -> ResolveErrorValue {
        match self {
            ResolveError::UnknownReference { entry, reference } => {
                ResolveErrorValue::UnknownReference { entry: entry@, reference: reference@ }
            },
            ResolveError::CyclicDefinition { chain } => {
                ResolveErrorValue::CyclicDefinition {
                    chain: chain@.map_values(|s: String| s@),
                }
            },
            ResolveError::DimensionMismatch { entry, declared, inferred } => {
                ResolveErrorValue::DimensionMismatch {
                    entry: entry@,
                    declared: declared@,
                    inferred: inferred@,
                }
            },
            ResolveError::InvalidRootOperation { axis, exponent } => {
                ResolveErrorValue::InvalidRootOperation {
                    axis: *axis as int,
                    exponent: *exponent as int,
                }
            },
            ResolveError::DuplicateSymbol { symbol, first, second } => {
                ResolveErrorValue::DuplicateSymbol {
                    symbol: symbol@,
                    first: first@,
                    second: second@,
                }
            },
            ResolveError::ExponentOverflow { entry } => {
                ResolveErrorValue::ExponentOverflow { entry: entry@ }
            },
        }
    }
}

} // verus!
