use vstd::prelude::*;

verus! {

/// The ways in which an operation of this crate can refuse its input.
#[derive(Clone, Copy, Debug, PartialEq, Eq, Structural)]
pub enum GaError {
    /// A route has fewer than the two stops that open and close it.
    MalformedRoute,
    /// A chromosome holds no depot gene, so it has no point to start from.
    MalformedChromosome,
    /// A gene or a stop names a node that the model does not know.
    UnknownNode,
    /// A structure is in a state that its own rules exclude.
    Invariant,
}

} // verus!
