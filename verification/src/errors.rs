use vstd::prelude::*;

verus! {

/// Failure taxonomy of the library.
///
/// - `InvalidTable`: a table shorter than the interpolation window needs, of
///   mismatched lengths, or not strictly monotone.
/// - `DegenerateInterval`: a division whose denominator is zero, as produced
///   by coincident abscissas during evaluation.
/// - `SingularMatrix`: a linear solve failed: a pivot was exactly zero, or
///   the solver could not certify its result.
/// - `Overflow`: an exact rational intermediate fell outside the range the
///   machine representation can hold.
#[derive(Clone, Copy, Debug, PartialEq, Eq, Structural)]
pub enum InterpError {
    InvalidTable,
    DegenerateInterval,
    SingularMatrix,
    Overflow,
}

} // verus!
