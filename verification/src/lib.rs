//! Constraint satisfaction toolkit: finite-domain CSP model, AC-3 arc
//! consistency, backtracking solvers (MRV, LCV, forward checking, MAC), a
//! simplified CDCL SAT solver, and built-in puzzles.
use vstd::prelude::*;

pub mod ac3;
pub mod backtracking;
pub mod cache;
pub mod cdcl;
mod clock;
pub mod csp;
pub mod dcs;
pub mod puzzle;
pub mod quantizer;
pub mod sudoku;
pub mod text;

verus! {

/// Crate version string.
pub const VERSION: &'static str = "2.2.0";

/// Major version component.
pub const VERSION_MAJOR: usize = 2;

/// Minor version component.
pub const VERSION_MINOR: usize = 2;

/// Patch version component.
pub const VERSION_PATCH: usize = 0;

/// Errors of constraint theory operations.
#[derive(Debug, Clone, Copy, PartialEq, Eq, Structural)]
pub enum CTErr {
    /// Invalid input dimension: a 2D vector was expected.
    InvalidDimension,
    /// The manifold is not initialized.
    ManifoldEmpty,
    /// Numerical instability: the input may contain NaN or infinity.
    NumericalInstability,
    /// The input vector has zero length and cannot be normalized.
    ZeroVector,
    /// The input contains NaN values.
    NaNInput,
    /// The input contains infinite values.
    InfinityInput,
    /// Input and output buffers have different lengths.
    BufferSizeMismatch,
    /// A computed value exceeds `f32::MAX`.
    Overflow,
    /// Division by zero was attempted.
    DivisionByZero,
    /// The density parameter is not positive.
    InvalidDensity,
    /// A threshold is out of its valid range.
    InvalidThreshold,
}

/// Result of constraint theory operations.
pub type CTResult<T> = Result<T, CTErr>;

/// The message of each error, with guidance on how to avoid it.
pub open spec fn cterr_message(e: CTErr) -> Seq<char> {
    match e {
        CTErr::InvalidDimension => "Invalid input dimension - expected 2D vector. Provide input as [x, y] where both are finite numbers."@,
        CTErr::ManifoldEmpty => "Manifold is empty - initialize with new() before performing operations."@,
        CTErr::NumericalInstability => "Numerical instability detected - input values may cause precision loss. Consider normalizing input vectors."@,
        CTErr::ZeroVector => "Input vector is zero length - cannot normalize. Provide a non-zero vector [x, y]."@,
        CTErr::NaNInput => "Input contains NaN values. Ensure all input values are valid numbers."@,
        CTErr::InfinityInput => "Input contains Infinity values. Ensure all input values are finite."@,
        CTErr::BufferSizeMismatch => "Input and output buffers have different lengths. Ensure buffers are pre-allocated with matching sizes."@,
        CTErr::Overflow => "Numerical overflow detected - computed value exceeds f32::MAX. Consider scaling down input values."@,
        CTErr::DivisionByZero => "Division by zero attempted - this is an internal error. Please report this issue."@,
        CTErr::InvalidDensity => "Invalid density parameter - must be a positive integer. Recommended range: 50-500."@,
        CTErr::InvalidThreshold => "Invalid threshold - must be between 0.0 and 1.0 inclusive."@,
    }
}

impl CTErr {
    /// The error's message, with guidance on how to avoid it.
    pub fn to_string(&self) -> (s: String)
        ensures
            s@ == cterr_message(*self),
    {
        let text: &str = match self {
            CTErr::InvalidDimension => "Invalid input dimension - expected 2D vector. Provide input as [x, y] where both are finite numbers.",
            CTErr::ManifoldEmpty => "Manifold is empty - initialize with new() before performing operations.",
            CTErr::NumericalInstability => "Numerical instability detected - input values may cause precision loss. Consider normalizing input vectors.",
            CTErr::ZeroVector => "Input vector is zero length - cannot normalize. Provide a non-zero vector [x, y].",
            CTErr::NaNInput => "Input contains NaN values. Ensure all input values are valid numbers.",
            CTErr::InfinityInput => "Input contains Infinity values. Ensure all input values are finite.",
            CTErr::BufferSizeMismatch => "Input and output buffers have different lengths. Ensure buffers are pre-allocated with matching sizes.",
            CTErr::Overflow => "Numerical overflow detected - computed value exceeds f32::MAX. Consider scaling down input values.",
            CTErr::DivisionByZero => "Division by zero attempted - this is an internal error. Please report this issue.",
            CTErr::InvalidDensity => "Invalid density parameter - must be a positive integer. Recommended range: 50-500.",
            CTErr::InvalidThreshold => "Invalid threshold - must be between 0.0 and 1.0 inclusive.",
        };
        text.to_owned()
    }
}

} // verus!
