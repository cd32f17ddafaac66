//! Metadata a mod ships with, as the loader reads it.

use vstd::prelude::*;
use crate::Namespace;

verus! {

/// A version number of eight components, most significant first.
pub type Version = [u64; 8];

pub struct ModificationMetadata {
    pub namespace: Namespace,
    pub version: Version,
    pub application_programming_interface_version: Version,
    pub content_hash: u64,
    pub dependency: Vec<Dependency>,
}

pub enum DependencyKind {
    /// Required: the mod cannot work without it; its absence prevents loading.
    Hard,
    /// Optional: the mod works without it and may use it when present.
    Soft,
    /// Not required but preferred: its presence improves the mod.
    Recommended,
    /// Partially conflicting: both may run, possibly degraded.
    Conflict,
    /// Strictly incompatible: both must not be loaded together.
    Incompatible,
}

pub struct Dependency {
    pub kind: DependencyKind,
    pub namespace: Namespace,
    pub version: VersionRequirement,
}

pub enum VersionRequirement {
    Any,
    Exact(Version),
    Minimum(Version),
    Range { min: Version, max: Version },
}

} // verus!
