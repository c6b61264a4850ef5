//! Directory-tree snapshot library.
//!
//! Given a raw, unsorted listing of a directory subtree, the builder turns it
//! into a depth-bounded in-memory snapshot whose children are ordered
//! (subdirectories first, then files, each group sorted byte-wise by path),
//! and the printer renders that snapshot as a tab-indented byte listing, one
//! line per entry.

pub mod order;
pub mod props;
pub mod render;
pub mod snapshot;
