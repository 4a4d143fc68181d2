//! Core of a decentralized database node: a cryptographically authenticated
//! key-value store driven by an external consensus engine.
//!
//! The library holds the verified logic only: the authenticated store and its
//! canonical root digest, the mutation codec and validation rules, and the
//! consensus bridge state machine. Transport, persistence and locking live in
//! the surrounding application, which owns a single bridge behind a mutex and
//! feeds it plain values.

pub mod akv;
pub mod bridge;
pub mod codec;
pub mod digest;
pub mod errors;
pub mod mutation;
pub mod order;
