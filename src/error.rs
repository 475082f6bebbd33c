//! Errors surfaced by the index.
use vstd::prelude::*;

verus! {

/// What can go wrong while configuring, sampling or building an index.
#[derive(Clone, Copy, Debug, PartialEq, Eq, Structural)]
pub enum LshError {
    /// The bin identifier would need more bits than a machine word holds.
    ConfigurationTooWide,
    /// A unit-vector draw produced a vector of norm zero.
    DegenerateSample,
    /// Run-time lengths disagree: a vector of the wrong dimension, or a corpus
    /// whose labels and vectors differ in number.
    ShapeMismatch,
}

} // verus!
