//! Metadata of a mod: its version, the mods it depends on and those it
//! interacts with.

use vstd::prelude::*;
use crate::Namespace;

verus! {

/// `std::ops::Bound` (an inclusive, exclusive or absent end of a range),
/// carried as is.
#[verifier::external_type_specification]
#[verifier::external_body]
#[verifier::reject_recursive_types(T)]
pub struct ExBound<T>(std::ops::Bound<T>);

/// A fixed-size version number: up to eight numeric components, most
/// significant first; shorter versions are padded with `0`
/// (`1.2` is `[1, 2, 0, 0, 0, 0, 0, 0]`). Versions compare
/// lexicographically from left to right.
#[derive(Debug, Copy, Clone, PartialEq, Eq, PartialOrd, Ord)]
pub struct Version([u64; 8]);

pub struct ModificationMetadata {
    pub namespace: Namespace,
    pub version: Version,
    pub api_version: Version,
    pub content_hash: Hash,
    pub dependencies: Vec<Dependency>,
    pub interactions: Vec<Interaction>,
}

pub struct Interaction {
    pub namespace: Namespace,
    pub kind: InteractionKind,
}

pub enum InteractionKind {
    /// Both mods change overlapping functionality; they may work together
    /// depending on load order or patches.
    Conflict,
    /// This mod cannot work together with the target mod.
    Incompatible,
}

pub struct Dependency {
    pub namespace: Namespace,
    pub version: VersionRequirement,
    pub kind: DependencyKind,
}

pub enum DependencyKind {
    /// The mod cannot work without this.
    Required,
    /// The mod works without this but enables extra features with it.
    Optional,
}

pub enum VersionRequirement {
    Any,
    Exact(Version),
    AtLeast(Version),
    Compatible(Version),
    Range { min: std::ops::Bound<Version>, max: std::ops::Bound<Version> },
}

pub enum Hash {
    Sha256([u8; 32]),
    Blake3([u8; 32]),
}

} // verus!
