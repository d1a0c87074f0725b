//! What can go wrong: a run that is refused, and a run that fails.

use vstd::prelude::*;

verus! {

/// Why a run was refused before any task was started.
#[derive(Clone, Copy, Debug, PartialEq, Eq, Structural)]
pub enum ConfigError {
    /// The number of threads asked for was zero.
    InvalidConfiguration,
    /// Source and destination buffers differ in length.
    LengthMismatch,
    /// A chunk reaches beyond the end of the buffer it was applied to, or
    /// chunks that should tile a buffer do not.
    OutOfRange,
}

/// The failure of one task, as seen when it was joined.
#[derive(Debug, PartialEq, Eq)]
pub struct KernelFailure<E> {
    /// The index of the task, which is the index of its chunk in the plan.
    pub chunk: usize,
    /// What the join reported.
    pub cause: E,
}

/// The failure of a run: at least one task failed.
#[derive(Debug, PartialEq, Eq)]
pub struct JoinFailure<E> {
    /// The first failure in spawn order.
    pub first: KernelFailure<E>,
}

} // verus!
