//! The register virtual machine: its types and values, its instruction set,
//! the static instruction verifier, and the execution core.

pub mod event;
pub mod instruction;
pub mod instruction_verifier;
pub mod machine;
pub mod types;
pub mod safety;
