//! Parsing of skill manifests and skill source specifications.
pub mod skill;
pub mod source;
pub mod text;
