use vstd::prelude::*;

verus! {

/// Why a set of samples could not be consolidated.
#[derive(Clone, Copy, PartialEq, Eq, Structural, Debug)]
pub enum FilterError {
    /// There was no sample at all.
    EmptySampleSet,
}

/// Why a set of nodes could not be placed.
#[derive(Clone, Copy, PartialEq, Eq, Structural, Debug)]
pub enum ResolveError {
    /// Fewer than two nodes were given: there is no axis to measure from.
    InsufficientData,
    /// The sequences that must agree in length do not.
    DimensionMismatch,
    /// A node that the step needs is not among those given.
    MissingNode,
}

} // verus!
