//! Deferred bulk entity-lifecycle commands over an entity-component store.
//!
//! The library models a store of entities carrying typed components and
//! verifies the command subsystem that scans it for entities matching a
//! filter and then despawns them, strips a component from them, or keeps
//! them only while a predicate holds, optionally cascading through the
//! child hierarchy. Commands are recorded in a queue and applied strictly
//! in enqueue order at a synchronization point, each one borrowing a
//! shared scratch buffer for the duration of its execution.

pub mod buffer;
pub mod cascade;
pub mod command;
pub mod filter;
pub mod laws;
pub mod predicate;
pub mod queue;
pub mod world;
