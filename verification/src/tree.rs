//! A tree: the owner of a single root node.

use vstd::prelude::*;

use crate::forest::Forest;
use crate::model::{forest_count, tree_count, TreeModel};
use crate::node::{kids_model, lemma_kids_model, Node};
use crate::size::Size;

verus! {

/// Owner of exactly one root [`Node`].
pub struct Tree<T> {
    pub root: Node<T>,
}

impl<T> Tree<T> {
    /// The model of the whole tree: the model of its root.
    pub open spec fn model(&self) -> TreeModel<T> {
        self.root.model()
    }

    /// Well-formedness of every node of the tree.
    pub open spec fn wf(&self) -> bool {
        self.root.wf()
    }

    /// Creates a tree holding only a root node with the given payload.
    ///
    /// A tree built step by step starts from here, with scattered
    /// (one-by-one) storage.
    pub fn new(data: T) -> (t: Tree<T>)
        ensures
            t.wf(),
            t.model() == (TreeModel { data, kids: Seq::<TreeModel<T>>::empty() }),
            t.root.uniform(false),
    {
        Tree { root: Node::leaf(data, false) }
    }

    /// Reference of the root node.
    pub fn root(&self) -> (r: &Node<T>)
        ensures
            *r == self.root,
    {
        &self.root
    }

    /// Mutable reference of the root node.
    pub fn root_mut(&mut self) -> (r: &mut Node<T>)
        ensures
            *r == old(self).root,
            final(self).root == *final(r),
    {
        &mut self.root
    }

    /// Adds the tree as the first child of the root.
    pub fn push_front(&mut self, tree: Tree<T>)
        requires
            old(self).wf(),
            tree.wf(),
            tree_count(old(self).model()) + tree_count(tree.model()) <= usize::MAX,
        ensures
            final(self).wf(),
            final(self).model() == (TreeModel {
                data: old(self).model().data,
                kids: old(self).model().kids.insert(0, tree.model()),
            }),
            final(self).root.piled == old(self).root.piled,
    {
        self.root.push_front(tree);
    }

    /// Adds the tree as the last child of the root.
    pub fn push_back(&mut self, tree: Tree<T>)
        requires
            old(self).wf(),
            tree.wf(),
            tree_count(old(self).model()) + tree_count(tree.model()) <= usize::MAX,
        ensures
            final(self).wf(),
            final(self).model() == (TreeModel {
                data: old(self).model().data,
                kids: old(self).model().kids.push(tree.model()),
            }),
            final(self).root.piled == old(self).root.piled,
    {
        self.root.push_back(tree);
    }

    /// Splices the forest's trees before the root's children.
    pub fn prepend(&mut self, forest: Forest<T>)
        requires
            old(self).wf(),
            forest.wf(),
            tree_count(old(self).model()) + forest_count(forest.model()) <= usize::MAX,
        ensures
            final(self).wf(),
            final(self).model() == (TreeModel {
                data: old(self).model().data,
                kids: forest.model() + old(self).model().kids,
            }),
            final(self).root.piled == old(self).root.piled,
    {
        self.root.prepend(forest);
    }

    /// Splices the forest's trees after the root's children.
    pub fn append(&mut self, forest: Forest<T>)
        requires
            old(self).wf(),
            forest.wf(),
            tree_count(old(self).model()) + forest_count(forest.model()) <= usize::MAX,
        ensures
            final(self).wf(),
            final(self).model() == (TreeModel {
                data: old(self).model().data,
                kids: old(self).model().kids + forest.model(),
            }),
            final(self).root.piled == old(self).root.piled,
    {
        self.root.append(forest);
    }

    /// Removes and returns all of the root's children as a forest,
    /// leaving the tree with a bare root.
    pub fn abandon(&mut self) -> (f: Forest<T>)
        requires
            old(self).wf(),
        ensures
            final(self).wf(),
            f.wf(),
            final(self).model() == (TreeModel {
                data: old(self).model().data,
                kids: Seq::<TreeModel<T>>::empty(),
            }),
            f.model() == old(self).model().kids,
    {
        let mut kids: Vec<Node<T>> = Vec::new();
        core::mem::swap(&mut kids, &mut self.root.children);
        let forest = Forest { kids, size: self.root.size };
        self.root.size = Size::empty();
        proof {
            lemma_kids_model(self.root.children@);
            assert(kids_model(self.root.children@) =~= Seq::<TreeModel<T>>::empty());
        }
        forest
    }

    /// Removes and returns the first child of the root, or `None`.
    pub fn pop_front(&mut self) -> (r: Option<Tree<T>>)
        requires
            old(self).wf(),
        ensures
            final(self).wf(),
            old(self).model().kids.len() == 0 ==> r is None && final(self).model()
                == old(self).model(),
            old(self).model().kids.len() > 0 ==> r is Some && r.unwrap().wf()
                && r.unwrap().model() == old(self).model().kids[0] && final(self).model() == (
            TreeModel {
                data: old(self).model().data,
                kids: old(self).model().kids.drop_first(),
            }),
    {
        self.root.pop_front()
    }

    /// Removes and returns the last child of the root, or `None`.
    pub fn pop_back(&mut self) -> (r: Option<Tree<T>>)
        requires
            old(self).wf(),
        ensures
            final(self).wf(),
            old(self).model().kids.len() == 0 ==> r is None && final(self).model()
                == old(self).model(),
            old(self).model().kids.len() > 0 ==> r is Some && r.unwrap().wf()
                && r.unwrap().model() == old(self).model().kids.last() && final(self).model()
                == (TreeModel {
                data: old(self).model().data,
                kids: old(self).model().kids.drop_last(),
            }),
    {
        self.root.pop_back()
    }

    /// Mutable reference of the first child of the root, or `None`.
    pub fn front_mut(&mut self) -> (r: Option<&mut Node<T>>)
        ensures
            old(self).model().kids.len() == 0 ==> r is None && final(self).root.children@
                == old(self).root.children@,
            old(self).model().kids.len() > 0 ==> r is Some && *r.unwrap()
                == old(self).root.children@[0] && final(self).root.children@
                == old(self).root.children@.update(0, *final(r.unwrap())),
            final(self).root.data == old(self).root.data,
            final(self).root.size == old(self).root.size,
            final(self).root.piled == old(self).root.piled,
    {
        self.root.front_mut()
    }

    /// Mutable reference of the last child of the root, or `None`.
    pub fn back_mut(&mut self) -> (r: Option<&mut Node<T>>)
        ensures
            old(self).model().kids.len() == 0 ==> r is None && final(self).root.children@
                == old(self).root.children@,
            old(self).model().kids.len() > 0 ==> r is Some && *r.unwrap()
                == old(self).root.children@.last() && final(self).root.children@
                == old(self).root.children@.update(
                old(self).root.children@.len() - 1,
                *final(r.unwrap()),
            ),
            final(self).root.data == old(self).root.data,
            final(self).root.size == old(self).root.size,
            final(self).root.piled == old(self).root.piled,
    {
        self.root.back_mut()
    }
}

} // verus!
