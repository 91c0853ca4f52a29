//! The failures the estimation pipeline can report.  Each is fatal: the
//! scoring run that meets one produces no prediction.
use vstd::prelude::*;

verus! {

/// A fatal condition detected by the pipeline.
#[derive(Debug, Clone, Copy, PartialEq, Eq, Structural)]
pub enum Error {
    /// A predictor column holds both numeric and categorical values.
    MixedColumnType { col: usize },
    /// The contingency table saw a number of categories other than the one
    /// type inference declared.
    CategoryCountMismatch { col: usize },
    /// A distance computation met a number/category pair, or numbers in a
    /// column not declared numeric.
    TypeMismatch { col: usize },
    /// A selected neighbour's target value is not a number.
    NonNumericTarget,
}

} // verus!
