//! Resolution engine for a system of physical dimensions, units and constants.
//!
//! The library takes a symbolic, possibly self-referential set of definitions
//! (dimensions over base dimensions, units over other units and numbers,
//! physical constants) and resolves every name to a canonical exponent vector
//! over the base dimensions together with a numeric magnitude relative to the
//! base units.  Templated unit families (prefix and alias combinatorics) are
//! expanded to concrete entries before resolution.  Cyclic or unresolvable
//! definition sets are rejected with a structured diagnostic instead of
//! crashing.

pub mod dimension_math;
pub mod errors;
pub mod expression;
pub mod magnitude;
pub mod resolve;
pub mod types;
