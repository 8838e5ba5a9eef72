//! Pruning of duplicate build artifacts in dependency cache directories.
//!
//! A package manager that recompiles a library after a version bump leaves the
//! previous artifact behind, distinguished only by a disambiguating hash at the
//! end of the file name.  This crate holds the verified core of a utility that
//! trims such caches: it derives a library-identity key from each artifact's
//! file stem, groups artifacts by that key, orders every group by modification
//! time, and decides which superseded entries may be deleted under a
//! configurable time tolerance.  A companion binary performs the actual
//! directory listing and file removal; everything with decision content lives
//! here, with contracts.

use vstd::prelude::*;

pub mod group;
pub mod key;
pub mod plan;
pub mod policy;
pub mod walk;

verus! {

/// Duplicates younger than the newest artifact by at most this many seconds
/// are kept unless some member of their group is older than the window.
pub const DEFAULT_TOLERANCE_SECS: u64 = 7200;

} // verus!
