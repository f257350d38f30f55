//! A path-tree reconciliation and change-tracking engine: a local mirror of a remote file tree,
//! the operations that edit it while keeping its structure, and the changeset that turns those
//! edits into remote tree writes. Every function is verified against its contract.
pub mod text;
pub mod sorted;
pub mod changes;
pub mod tree;
pub mod workspace;
