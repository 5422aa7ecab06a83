//! Turns the flat output of a protocol buffer code generator into nested
//! modules: a tree of dot-delimited namespaces, the index file of each level,
//! and the plan of file operations that relocates and merges the generated
//! files.
use vstd::prelude::*;

pub mod error;
pub mod index;
pub mod layout;
pub mod named;
pub mod naming;
pub mod pipeline;
pub mod relocate;
pub mod segment;
pub mod tree;

verus! {

} // verus!
