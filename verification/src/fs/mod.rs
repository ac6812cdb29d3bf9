//! The durable workspace filesystem.
//!
//! The metadata (the inode table, the directory structure, each file's map from
//! slices to blocks) is a small foldable value; the file bytes are immutable,
//! content-addressed blobs that the metadata names and nothing more.
//!
//! - [`meta`]: the tree, path resolution, and the set of blocks it refers to.
//! - [`op`]: the mutation record and its pure fold.
//! - [`facet`]: the facet, and the handle its commands work through.
//! - [`codec`]: how ops and trees are encoded.
//! - [`chunk`]: bytes into blocks, and slices into bytes.
//! - [`grain`]: the workspace grain.
//! - [`repair`]: copying the live blocks again.
//! - [`laws`], [`tree_laws`] and [`file_laws`]: what holds of it all.
pub mod chunk;
pub mod codec;
pub mod facet;
pub mod file_laws;
pub mod grain;
pub mod laws;
pub mod meta;
pub mod op;
pub mod repair;
pub mod tree_laws;
