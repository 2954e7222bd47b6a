//! Core logic of a secret-replication controller.
//!
//! A cluster operator writes *directives*: small objects that name one source
//! secret and a list of destination namespaces. The controller watches both
//! the directive collection and the secret collection and drives the cluster
//! toward the invariant "every secret matched by a directive exists,
//! byte-identical, in each of that directive's destination namespaces".
//!
//! This crate holds the decision core of that controller, verified:
//! the directive cache ([`cache::DirectiveCache`]), the matching and
//! replica-construction rules ([`replicate`]), the per-event planning step
//! ([`engine`]), a model of the destination-namespace state and of the
//! garbage collector's owner-reference cascade ([`cluster`]), and the proved
//! replication laws — convergence, out-of-order creation, update propagation,
//! cascading deletion, idempotence, isolation ([`laws`]). The watch streams,
//! the wake-up signal and the apply writes themselves are plain I/O performed
//! by the surrounding binary.

pub mod cache;
pub mod cluster;
pub mod crds;
pub mod engine;
pub mod laws;
pub mod replicate;
pub mod secret;
