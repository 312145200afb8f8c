//! Snapshots of a directory tree: which entries a walk keeps, which files
//! are binary, the tree of what was kept, and statistics over the text files.

use vstd::prelude::*;

pub mod binary;
pub mod driver;
pub mod filter;
pub mod output;
pub mod stats;
pub mod tree;

verus! {

} // verus!
