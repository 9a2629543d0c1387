//! A fine-grained reactive core: a signal store with automatic dependency
//! tracking, a batching effect scheduler, memoized derived values, disposal
//! scopes and a keyed-list reconciler.
//!
//! The [`runtime::Runtime`] is an explicit registry. It holds values and
//! bookkeeping and no code of its users: the body of an effect or of a
//! derived computation runs outside, between a call that starts its run and
//! one that ends it, and reads and writes through the runtime meanwhile.
//!
//! - A signal is created with a value, read and written. A read inside a
//!   running computation subscribes the computation to the signal.
//! - A write that changes the value marks every derived computation that it
//!   reaches as stale and schedules every effect that it reaches. Nothing
//!   runs before the next flush.
//! - A flush hands out the scheduled effects one by one. An effect that is
//!   scheduled again after it has run waits for the flush after.
//! - A derived computation is recomputed when it is read while stale, and
//!   not otherwise.
//! - Disposing a scope disposes what was created under it, once and for all.
//!
//! Every operation is stated as a function on [`model::RuntimeView`], the
//! mathematical state of a runtime; [`laws`] holds what follows for every
//! state. [`reconcile::ListState`] reconciles a keyed list against a new
//! sequence and keeps the subtree of every item whose key persists.

pub mod boundary;
pub mod components;
pub mod error;
pub mod graph;
pub mod laws;
pub mod model;
pub mod node_ref;
pub mod reconcile;
pub mod runtime;
