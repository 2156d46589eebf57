//! A coordination core for two-phase ("render statically, then take over
//! interactively") user interfaces that must hand parts of the document to
//! an external, non-reentrant mutator exactly once, and only once every
//! precondition for a safe mutation holds.
//!
//! The pieces are:
//! - readiness signals: one-shot, idempotent event sources;
//! - a convergence barrier that joins any finite set of signals;
//! - an ownership guard that runs the external mutation at most once per
//!   subtree lifetime and never after the subtree was torn down;
//! - a markup module for the alternative strategy of computing the external
//!   markup off the critical path and handing it over as an opaque blob.
//!
//! The executable state lives in [`coordinator::Coordinator`]; its whole
//! behaviour is specified against the ghost [`model::Model`], and the laws
//! in [`laws`] are proved over that model.

pub mod coordinator;
pub mod counting;
pub mod invariants;
pub mod laws;
pub mod markup;
pub mod model;
