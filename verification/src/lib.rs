//! Content-addressed directory trees.
//!
//! A directory tree maps validated file names to entries; an entry is either
//! a leaf carrying raw content bytes or a child directory. Trees are built
//! and edited through a mutable [`builder::DirectoryBuilder`] and then frozen
//! into immutable, structurally shared nodes whose content fingerprint is
//! computed bottom up. Equality of frozen trees is decided by fingerprint
//! alone, and the fingerprint encoding is proved injective on well-formed,
//! bounded trees, so fingerprint equality coincides with equality of the
//! trees' mathematical values.

pub mod builder;
pub mod capability;
pub mod directory;
pub mod entry;
pub mod error;
pub mod fingerprint;
pub mod model;
pub mod name;
pub mod proofs;
