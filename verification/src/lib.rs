//! A reverse-mode automatic-differentiation engine over scalar values.
//!
//! The engine keeps every node of a computation graph in an arena: a node is
//! addressed by a small integer index, its parents are stored as indices, and
//! the deferred backward action of each node is an explicit rule interpreted
//! by the backward pass.  Scalars are carried as opaque 64-bit encodings; the
//! engine records, schedules and audits every gradient contribution, while the
//! caller that drives it performs the numeric arithmetic on the encodings it
//! is handed.

pub mod backward;
pub mod graph;
pub mod shuffle;
pub mod topo;
