//! Assembles the generated sources of protobuf packages into one library:
//! a tree of nested modules, keyed by dotted package path, that serializes
//! in lexicographic order, and the build manifest that goes with it.

pub mod cli;
pub mod descriptor;
pub mod error;
pub mod generator;
pub mod module_tree;
pub mod text;
