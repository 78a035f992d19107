//! Core of a noisy quantum circuit simulator.
//!
//! The simulator evolves the state of a multi-qubit register under noisy
//! operations (Kraus channels) and instruments (families of channels indexed
//! by a measurement outcome), either as a density matrix or as a state vector
//! sampled along one trajectory. All of it is generic over the number type
//! given by [`Amplitude`], so that the same verified code runs on any complex
//! number representation.

mod amplitude;
mod error;
mod matrix;
mod kernel;
mod operation;
mod density_matrix;
mod sampling;
mod state_vector;
mod completion;
mod cursor;

pub use amplitude::Amplitude;
pub use error::{Error, StateDefect};
pub use density_matrix::{doubled_axes, DensityMatrix, DensityMatrixSimulator};
pub use density_matrix::{lemma_set_state_round_trip, set_state_outcome};
pub use cursor::{CursorAwareLexer, CursorState, LexError, Span, Token, TokenKind};
pub use completion::{assert_no_duplicates, CompletionItem, CompletionList};
pub use sampling::{last_supported, pick_outcome};
pub use state_vector::{select_branch, StateVector, StateVectorSimulator};
pub use state_vector::{lemma_sv_set_state_round_trip, sv_set_state_outcome};
pub use matrix::SquareMatrix;
pub use operation::{ChannelError, Instrument, Operation};
pub use kernel::{apply_kernel, fiber_layout, FiberLayout, KernelError};
pub use kernel::{fiber_index, lemma_fiber_split, lemma_fibers_cover, lemma_fibers_disjoint, valid_axes};
