//! A verified model of a small file-management backend: typed directory
//! listings with a two-key sort, an in-memory filesystem model whose
//! operations mirror the path operations of the backend, and the pure
//! decision logic of the process bridge that scaffolds and runs projects.

use vstd::prelude::*;

pub mod entry;
pub mod fs;
pub mod process;

verus! {

/// The error taxonomy of the backend: every failure carries one of these
/// kinds together with descriptive text produced at the boundary.
#[derive(Clone, Copy, PartialEq, Eq, Structural, Debug)]
pub enum ErrorKind {
    /// A filesystem operation failed: missing path, permission, bad metadata.
    IoError,
    /// The external executable could not be spawned at all.
    ProcessSpawnError,
    /// The external executable ran and exited with a nonzero status.
    ProcessExitError,
    /// The notification channel to the UI was unavailable.
    ChannelError,
}

} // verus!
