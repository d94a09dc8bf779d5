//! A single-threaded cooperative task executor.
//!
//! Tasks are explicit state machines: each resume either completes the task
//! with a [`value::Value`] or suspends it on a timer or on another task's
//! completion.  The [`executor::Executor`] owns a FIFO ready queue and a
//! deadline-sorted timer queue, drives ready tasks one at a time, and advances
//! virtual time to the earliest pending deadline when nothing is ready.
//! A two-way join combinator completes with the pair of its children's
//! values, in argument order, whatever order the children finish in.
//!
//! The crate also keeps a handful of small ownership and string-slice
//! exercises (`propiedad`, `prestamos`, `rebanadas`).

pub mod executor;
pub mod prestamos;
pub mod propiedad;
pub mod rebanadas;
pub mod task;
pub mod timer;
pub mod value;
