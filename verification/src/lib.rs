//! Snapshot tree and transactional deployment engine.
//!
//! The crate models an OS root filesystem that is organised as a forest of
//! copy-on-write snapshots.  Every snapshot is a triad of subvolumes
//! (`boot`, `etc`, `rootfs`) sharing one integer id.  The forest of ids and
//! their ancestry is kept in one persisted file; a transaction turns a
//! read-only snapshot into a mutable working copy (the `-chr` triad),
//! applies changes inside it, and atomically commits or discards the result.
//!
//! All decisions are made here over explicit models of the storage state;
//! the binary around the crate performs the filesystem effects that the
//! engine plans.

use vstd::prelude::*;

pub mod num;
pub mod forest;
pub mod codec;
pub mod store;
pub mod engine;
pub mod desc;
pub mod ops;
pub mod config;
pub mod host;
pub mod backend;

verus! {

/// The error kinds that any operation of the crate can report.
#[derive(Clone, Copy, Debug, PartialEq, Eq, Structural)]
pub enum Error {
    /// A snapshot id, or its parent, is absent.
    NotFound { id: u64 },
    /// A triad or lock already exists, or the target is protected.
    Conflict { id: u64 },
    /// The operation is disallowed by policy, e.g. mutating the base id.
    Unsupported { id: u64 },
    /// An underlying storage, mount or process failure.
    Io { id: u64 },
    /// A package manager exited with a failure.
    BackendFailure { id: u64 },
}

} // verus!
