//! Tracks links that anchor an identifier to a named path or to a precise
//! text fragment inside a version-controlled repository, and re-resolves
//! fragment anchors as the repository's history advances: the link-record
//! text format, the reverse commit chain, forward fragment resolution and
//! diff event ordering, each with a verified contract.

pub mod bytes;
pub mod ids;
pub mod parse;
pub mod loader;
pub mod chain;
pub mod resolve;
pub mod diff;
