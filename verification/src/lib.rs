//! Resolution core of a package-management client.
//!
//! The crate encodes and decodes version constraints as a compact
//! self-describing binary grammar, drives a trust-ordered multi-index
//! lookup policy, and maintains a local installed-package registry with
//! reference-counted dependency edges.

pub mod bytes;
pub mod condition;
pub mod index;
pub mod package;
pub mod resolve;
pub mod system;
