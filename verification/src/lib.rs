//! An order-independent, in-memory snapshot of a filesystem subtree.
//!
//! A [`tree::FileTree`] describes a layout of plain files and directories,
//! with each directory's children kept under a canonical byte-wise name
//! order, so that two snapshots of the same contents are equal however the
//! platform enumerated them. The snapshot builder ([`snapshot::build`])
//! turns a raw, enumeration-ordered capture of a real path into such a
//! tree, and the materializer ([`materialize::plan`]) turns a tree back
//! into the ordered list of creation steps that recreate the layout.
//! All filesystem reads and writes stay with the caller.

pub mod materialize;
pub mod name_order;
pub mod snapshot;
pub mod tree;
