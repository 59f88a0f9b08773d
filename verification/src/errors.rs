//! Error taxonomy: validation failures are explicit result values returned
//! to the caller before any mutation, never control flow.

use vstd::prelude::*;

verus! {

/// A caller handed in a value the operation cannot accept.
#[derive(Debug, Clone, Copy, PartialEq, Eq, Structural)]
pub enum ValidationError {
    /// The input vector has no components.
    EmptyVector,
    /// A raw component is NaN or infinite; the fixed-point front end rejects
    /// it before anything reaches the engine.
    NonFiniteComponent,
    /// Two operands of a similarity computation differ in resolution or in
    /// word count.
    MismatchedShapes,
    /// Sparse entries are not strictly ascending by dimension.
    UnsortedEntries,
    /// A value lies outside the engine's fixed-point range.
    ValueOutOfRange,
    /// A bit-plane resolution outside the supported 1..=8 range.
    UnsupportedResolution,
}

/// A strategy could not be trained.
#[derive(Debug, Clone, Copy, PartialEq, Eq, Structural)]
pub enum TrainingError {
    /// Too few sample vectors to train a stateful strategy.
    InsufficientSamples,
}

/// An insertion into the inverted index violated its invariants.
#[derive(Debug, Clone, Copy, PartialEq, Eq, Structural)]
pub enum IndexError {
    /// The sparse vector's entries are malformed: not strictly ascending by
    /// dimension, or out of the engine's value range.
    MalformedEntries,
}

} // verus!
