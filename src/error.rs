use vstd::prelude::*;
use crate::kernel::KernelError;

verus! {

/// Why a replacement state was refused.
#[derive(Clone, Copy, Debug, PartialEq)]
pub enum StateDefect<C> {
    /// The replacement has another dimension than the simulated system.
    DimensionMismatch { expected: usize, actual: usize },
    /// The trace (or squared norm) of the replacement, which is not 1.
    NotNormalized(C),
    /// The replacement density matrix is not Hermitian.
    NotHermitian,
}

/// The errors of a simulator.
#[derive(Clone, Copy, Debug, PartialEq)]
pub enum Error<C> {
    /// A trace outside `[ε, 1 + ε]` was given; it is carried along.
    NotNormalized(C),
    /// A renormalization or a sampling step met a total probability under `ε`.
    ProbabilityZeroEvent,
    /// The sampling loop ran out of outcomes before passing the random draw.
    FailedToSampleInstrumentOutcome,
    /// A replacement state failed validation.
    InvalidState(StateDefect<C>),
    /// A matrix could not be applied to the given qubits.
    Kernel(KernelError),
}

} // verus!
