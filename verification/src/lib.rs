//! A general-purpose n-ary tree / forest engine.
//!
//! Trees own their nodes: every [`node::Node`] holds its payload and the
//! vector of its child nodes, together with a cached [`size::Size`] record
//! (child count and descendant count) that is kept consistent by every
//! operation.  A [`tree::Tree`] owns a single root node, a
//! [`forest::Forest`] owns an ordered list of trees.
//!
//! Beyond child-list mutation the engine offers breadth-first
//! linearization and reconstruction ([`bfs`]), a depth-first cursor with
//! begin/end/leaf events ([`walk`]), a bracket-notation printer and parser
//! ([`notation`]), and a reference-counted shared-ownership layer over an
//! explicit node store ([`rc`]).

use vstd::prelude::*;

pub mod size;
pub mod model;
pub mod node;
pub mod tree;
pub mod forest;
pub mod bfs;
pub mod bfs_impls;
pub mod notation;
pub mod walk;
pub mod rc;

pub use bfs::{Bfs, BfsForest, BfsTree};
pub use forest::Forest;
pub use node::Node;
pub use rc::{RcNode, RcStore, WeakNode};
pub use size::Size;
pub use tree::Tree;
pub use walk::{ForestWalk, TreeWalk};

verus! {

/// Error carried by fallible operations, such as parsing bracket notation.
#[derive(Debug)]
pub struct Error {
    pub msg: String,
}

impl Error {
    /// Wraps a message in an `Error`.
    pub fn new(msg: &str) -> (e: Error)
        ensures
            e.msg@ == msg@,
    {
        Error { msg: msg.to_owned() }
    }
}

} // verus!
