//! Size record of a node, tree or forest: its child count and its
//! descendant count.

use vstd::prelude::*;

verus! {

/// Child count (`degree`) and descendant count (`descendants`) of a node.
///
/// For a real node `descendants` counts every node strictly below it; a
/// forest counts all of the nodes it owns.  The well-formedness predicates
/// of nodes, trees and forests tie both numbers to the actual shape.
#[derive(Clone, Copy, Debug, PartialEq, Eq, Structural)]
pub struct Size {
    pub degree: usize,
    pub descendants: usize,
}

impl Size {
    /// The size of a structure without any node: no children, no
    /// descendants.
    pub fn empty() -> (s: Size)
        ensures
            s == (Size { degree: 0, descendants: 0 }),
    {
        Size { degree: 0, descendants: 0 }
    }
}

} // verus!
