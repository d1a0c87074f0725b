//! Fork-join mapping over contiguous buffers.
//!
//! A buffer is cut into disjoint contiguous chunks, one task per chunk runs a
//! shared kernel on its own view of the buffer, and every task is joined
//! before the run ends.
//!
//! The library plans the chunks, builds the views, which never overlap, holds
//! the kernel and the body of each task, and keeps the state of a run: it
//! says which task to spawn or to join next and how the run ended. Starting
//! and joining threads is left to the caller, who does what the run asks for
//! and reports back.

pub mod chunk;
pub mod chunked;
pub mod error;
pub mod kernel;
pub mod runner;
pub mod view;
