//! A node: a payload together with the list of its child nodes.
//!
//! Every node owns its children outright and carries a cached [`Size`]
//! record.  The well-formedness predicate [`Node::wf`] ties the cached
//! numbers to the actual shape; every operation of this crate preserves
//! it.

use vstd::prelude::*;
use vstd::std_specs::cmp::PartialEqSpec;

use crate::model::{
    forest_count, lemma_forest_count_concat, lemma_forest_count_ge_len,
    lemma_forest_count_insert, lemma_forest_count_push, lemma_forest_count_remove,
    tree_count, TreeModel,
};
use crate::size::Size;
use crate::tree::Tree;

verus! {

/// A payload plus the ordered list of its child nodes.
///
/// The fields are public so that specifications can speak about them, but
/// they should be read, not written: the operations of this crate keep
/// [`Node::wf`] true, and hand-built values may break it.  The `piled`
/// flag records the storage strategy the node was built with: `true` for
/// nodes produced by a bulk constructor, `false` for nodes allocated one
/// by one.
pub struct Node<T> {
    pub data: T,
    pub children: Vec<Node<T>>,
    pub size: Size,
    pub piled: bool,
}

/// The models of a sequence of nodes, in order.
pub open spec fn kids_model<T>(s: Seq<Node<T>>) -> Seq<TreeModel<T>>
    decreases s,
{
    if s.len() == 0 {
        Seq::empty()
    } else {
        seq![s[0].model()] + kids_model(s.subrange(1, s.len() as int))
    }
}

/// Pointwise characterization of [`kids_model`].
pub proof fn lemma_kids_model<T>(s: Seq<Node<T>>)
    ensures
        kids_model(s).len() == s.len(),
        forall|i: int| 0 <= i < s.len() ==> kids_model(s)[i] == s[i].model(),
    decreases s,
{
    if s.len() > 0 {
        lemma_kids_model(s.subrange(1, s.len() as int));
    }
}

/// The size invariant, as a law: in a well-formed node — and every
/// operation of this crate takes and returns well-formed nodes — the
/// cached `degree` equals the number of children one would iterate, the
/// cached `descendants` equals the number of nodes of the subtree minus
/// the node itself, and the same holds in every node below.
pub proof fn lemma_size_invariant<T>(n: Node<T>)
    requires
        n.wf(),
    ensures
        n.size.degree == n.model().kids.len(),
        n.size.descendants == tree_count(n.model()) - 1,
        forall|i: int| 0 <= i < n.children@.len() ==> (#[trigger] n.children@[i]).wf(),
{
    lemma_kids_model(n.children@);
}

impl<T> Node<T> {
    /// The mathematical model of this node: its payload and the models of
    /// its children.
    pub open spec fn model(&self) -> TreeModel<T>
        decreases self,
    {
        TreeModel { data: self.data, kids: kids_model(self.children@) }
    }

    /// Well-formedness: the cached `degree` is the number of children,
    /// the cached `descendants` is the number of nodes strictly below,
    /// and the same holds in every child.
    pub open spec fn wf(&self) -> bool
        decreases self,
    {
        &&& self.size.degree == self.children@.len()
        &&& self.size.descendants == forest_count(kids_model(self.children@))
        &&& forall|i: int|
            0 <= i < self.children@.len() ==> (#[trigger] self.children@[i]).wf()
    }

    /// Every node of this subtree carries the storage flag `b`.
    pub open spec fn uniform(&self, b: bool) -> bool
        decreases self,
    {
        &&& self.piled == b
        &&& forall|i: int|
            0 <= i < self.children@.len() ==> (#[trigger] self.children@[i]).uniform(b)
    }

    /// Makes a childless node around a payload.
    pub fn leaf(data: T, piled: bool) -> (n: Node<T>)
        ensures
            n.wf(),
            n.model() == (TreeModel { data, kids: Seq::<TreeModel<T>>::empty() }),
            n.uniform(piled),
            n.piled == piled,
    {
        let n = Node { data, children: Vec::new(), size: Size::empty(), piled };
        proof {
            lemma_kids_model(n.children@);
            assert(kids_model(n.children@) =~= Seq::<TreeModel<T>>::empty());
        }
        n
    }

    /// Reference of the associated payload.
    pub fn data(&self) -> (r: &T)
        ensures
            *r == self.model().data,
    {
        &self.data
    }

    /// Mutable reference of the associated payload.
    pub fn data_mut(&mut self) -> (r: &mut T)
        ensures
            *r == old(self).model().data,
            final(self).children == old(self).children,
            final(self).size == old(self).size,
            final(self).piled == old(self).piled,
            final(self).data == *final(r),
            final(self).model() == (TreeModel {
                data: *final(r),
                kids: old(self).model().kids,
            }),
            final(self).wf() == old(self).wf(),
    {
        &mut self.data
    }

    /// Returns `true` if the node has no child.
    pub fn has_no_child(&self) -> (r: bool)
        ensures
            r == (self.model().kids.len() == 0),
    {
        proof {
            lemma_kids_model(self.children@);
        }
        self.children.len() == 0
    }

    /// Number of direct children.
    pub fn degree(&self) -> (r: usize)
        requires
            self.wf(),
        ensures
            r == self.model().kids.len(),
    {
        proof {
            lemma_kids_model(self.children@);
        }
        self.size.degree
    }

    /// Number of nodes of the subtree rooted here, this node included.
    pub fn node_count(&self) -> (r: usize)
        requires
            self.wf(),
            tree_count(self.model()) <= usize::MAX,
        ensures
            r == tree_count(self.model()),
    {
        self.size.descendants + 1
    }

    /// Reference of the `i`-th child.
    pub fn child(&self, i: usize) -> (r: &Node<T>)
        requires
            i < self.model().kids.len(),
    ensures
            *r == self.children@[i as int],
            r.model() == self.model().kids[i as int],
            self.wf() ==> r.wf(),
    {
        proof {
            lemma_kids_model(self.children@);
        }
        &self.children[i]
    }

    /// Mutable reference of the `i`-th child.
    pub fn child_mut(&mut self, i: usize) -> (r: &mut Node<T>)
        requires
            i < old(self).model().kids.len(),
        ensures
            *r == old(self).children@[i as int],
            old(self).wf() ==> (*r).wf(),
            final(self).data == old(self).data,
            final(self).size == old(self).size,
            final(self).piled == old(self).piled,
            final(self).children@ == old(self).children@.update(i as int, *final(r)),
    {
        proof {
            lemma_kids_model(self.children@);
        }
        vstd::std_specs::vec::vec_index_mut(&mut self.children, i)
    }

    /// Reference of the first child, or `None` if there is none.
    pub fn front(&self) -> (r: Option<&Node<T>>)
        ensures
            self.model().kids.len() == 0 <==> r is None,
            self.model().kids.len() > 0 ==> r is Some && *r.unwrap() == self.children@[0]
                && r.unwrap().model() == self.model().kids[0],
    {
        proof {
            lemma_kids_model(self.children@);
        }
        if self.children.len() == 0 {
            None
        } else {
            Some(&self.children[0])
        }
    }

    /// Reference of the last child, or `None` if there is none.
    pub fn back(&self) -> (r: Option<&Node<T>>)
        ensures
            self.model().kids.len() == 0 <==> r is None,
            self.model().kids.len() > 0 ==> r is Some
                && *r.unwrap() == self.children@[self.children@.len() - 1]
                && r.unwrap().model() == self.model().kids[self.model().kids.len() - 1],
    {
        proof {
            lemma_kids_model(self.children@);
        }
        if self.children.len() == 0 {
            None
        } else {
            Some(&self.children[self.children.len() - 1])
        }
    }
    /// Appends the tree as the last child.
    pub fn push_back(&mut self, tree: Tree<T>)
        requires
            old(self).wf(),
            tree.wf(),
            tree_count(old(self).model()) + tree_count(tree.model()) <= usize::MAX,
        ensures
            final(self).wf(),
            final(self).data == old(self).data,
            final(self).piled == old(self).piled,
            final(self).children@ == old(self).children@.push(tree.root),
            final(self).model() == (TreeModel {
                data: old(self).model().data,
                kids: old(self).model().kids.push(tree.model()),
            }),
    {
        proof {
            lemma_kids_model(old(self).children@);
            lemma_forest_count_ge_len(kids_model(old(self).children@));
        }
        let root = tree.root;
        self.size.degree = self.size.degree + 1;
        self.size.descendants = self.size.descendants + 1 + root.size.descendants;
        self.children.push(root);
        proof {
            lemma_kids_model(self.children@);
            assert(kids_model(self.children@) =~= kids_model(old(self).children@).push(
                root.model(),
            ));
            lemma_forest_count_push(kids_model(old(self).children@), root.model());
        }
    }

    /// Inserts the tree as the first child.
    pub fn push_front(&mut self, tree: Tree<T>)
        requires
            old(self).wf(),
            tree.wf(),
            tree_count(old(self).model()) + tree_count(tree.model()) <= usize::MAX,
        ensures
            final(self).wf(),
            final(self).data == old(self).data,
            final(self).piled == old(self).piled,
            final(self).children@ == old(self).children@.insert(0, tree.root),
            final(self).model() == (TreeModel {
                data: old(self).model().data,
                kids: old(self).model().kids.insert(0, tree.model()),
            }),
    {
        proof {
            lemma_kids_model(old(self).children@);
            lemma_forest_count_ge_len(kids_model(old(self).children@));
        }
        let root = tree.root;
        self.size.degree = self.size.degree + 1;
        self.size.descendants = self.size.descendants + 1 + root.size.descendants;
        self.children.insert(0, root);
        proof {
            lemma_kids_model(self.children@);
            assert(kids_model(self.children@) =~= kids_model(old(self).children@).insert(
                0,
                root.model(),
            ));
            lemma_forest_count_insert(kids_model(old(self).children@), 0, root.model());
        }
    }

    /// Removes and returns the last child, or `None` if there is none.
    pub fn pop_back(&mut self) -> (r: Option<Tree<T>>)
        requires
            old(self).wf(),
        ensures
            final(self).wf(),
            final(self).data == old(self).data,
            final(self).piled == old(self).piled,
            old(self).model().kids.len() == 0 ==> r is None && *final(self) == *old(self),
            old(self).model().kids.len() > 0 ==> r is Some && r.unwrap().wf()
                && r.unwrap().root == old(self).children@.last()
                && r.unwrap().model() == old(self).model().kids.last()
                && final(self).children@ == old(self).children@.drop_last()
                && final(self).model() == (TreeModel {
                data: old(self).model().data,
                kids: old(self).model().kids.drop_last(),
            }),
    {
        proof {
            lemma_kids_model(old(self).children@);
        }
        if self.children.len() == 0 {
            return None;
        }
        let n = self.children.len();
        proof {
            lemma_forest_count_remove(kids_model(old(self).children@), n - 1);
            lemma_forest_count_ge_len(
                kids_model(old(self).children@).remove(n - 1),
            );
        }
        let root = self.children.pop().unwrap();
        proof {
            assert(old(self).children@[n - 1].wf());
            assert(kids_model(old(self).children@)[n - 1] == root.model());
            assert(tree_count(root.model()) == 1 + root.size.descendants);
        }
        self.size.degree = self.size.degree - 1;
        self.size.descendants = self.size.descendants - 1 - root.size.descendants;
        proof {
            lemma_kids_model(self.children@);
            assert(self.children@ =~= old(self).children@.drop_last());
            assert forall|j: int| 0 <= j < self.children@.len() implies (
            #[trigger] self.children@[j]).wf() by {
                assert(self.children@[j] == old(self).children@[j]);
                assert(old(self).children@[j].wf());
            }
            assert(kids_model(self.children@) =~= kids_model(old(self).children@).remove(
                n - 1,
            ));
            assert(kids_model(old(self).children@).remove(n - 1) =~= kids_model(
                old(self).children@,
            ).drop_last());
        }
        Some(Tree { root })
    }

    /// Removes and returns the first child, or `None` if there is none.
    pub fn pop_front(&mut self) -> (r: Option<Tree<T>>)
        requires
            old(self).wf(),
        ensures
            final(self).wf(),
            final(self).data == old(self).data,
            final(self).piled == old(self).piled,
            old(self).model().kids.len() == 0 ==> r is None && *final(self) == *old(self),
            old(self).model().kids.len() > 0 ==> r is Some && r.unwrap().wf()
                && r.unwrap().root == old(self).children@[0]
                && r.unwrap().model() == old(self).model().kids[0]
                && final(self).children@ == old(self).children@.drop_first()
                && final(self).model() == (TreeModel {
                data: old(self).model().data,
                kids: old(self).model().kids.drop_first(),
            }),
    {
        proof {
            lemma_kids_model(old(self).children@);
        }
        if self.children.len() == 0 {
            return None;
        }
        proof {
            lemma_forest_count_remove(kids_model(old(self).children@), 0);
            lemma_forest_count_ge_len(kids_model(old(self).children@).remove(0));
        }
        let root = self.children.remove(0);
        proof {
            assert(old(self).children@[0].wf());
            assert(kids_model(old(self).children@)[0] == root.model());
            assert(tree_count(root.model()) == 1 + root.size.descendants);
        }
        self.size.degree = self.size.degree - 1;
        self.size.descendants = self.size.descendants - 1 - root.size.descendants;
        proof {
            lemma_kids_model(self.children@);
            assert(self.children@ =~= old(self).children@.drop_first());
            assert forall|j: int| 0 <= j < self.children@.len() implies (
            #[trigger] self.children@[j]).wf() by {
                assert(self.children@[j] == old(self).children@[j + 1]);
                assert(old(self).children@[j + 1].wf());
            }
            assert(kids_model(self.children@) =~= kids_model(old(self).children@).remove(0));
            assert(kids_model(old(self).children@).remove(0) =~= kids_model(
                old(self).children@,
            ).drop_first());
        }
        Some(Tree { root })
    }

    /// Inserts the tree as a new sibling directly before the `i`-th child.
    pub fn insert_prev_sib(&mut self, i: usize, sib: Tree<T>)
        requires
            old(self).wf(),
            sib.wf(),
            i < old(self).model().kids.len(),
            tree_count(old(self).model()) + tree_count(sib.model()) <= usize::MAX,
        ensures
            final(self).wf(),
            final(self).data == old(self).data,
            final(self).piled == old(self).piled,
            final(self).children@ == old(self).children@.insert(i as int, sib.root),
            final(self).model() == (TreeModel {
                data: old(self).model().data,
                kids: old(self).model().kids.insert(i as int, sib.model()),
            }),
    {
        proof {
            lemma_kids_model(old(self).children@);
            lemma_forest_count_ge_len(kids_model(old(self).children@));
        }
        let root = sib.root;
        self.size.degree = self.size.degree + 1;
        self.size.descendants = self.size.descendants + 1 + root.size.descendants;
        self.children.insert(i, root);
        proof {
            lemma_kids_model(self.children@);
            assert(kids_model(self.children@) =~= kids_model(old(self).children@).insert(
                i as int,
                root.model(),
            ));
            lemma_forest_count_insert(kids_model(old(self).children@), i as int, root.model());
        }
    }

    /// Inserts the tree as a new sibling directly after the `i`-th child.
    pub fn insert_next_sib(&mut self, i: usize, sib: Tree<T>)
        requires
            old(self).wf(),
            sib.wf(),
            i < old(self).model().kids.len(),
            tree_count(old(self).model()) + tree_count(sib.model()) <= usize::MAX,
        ensures
            final(self).wf(),
            final(self).data == old(self).data,
            final(self).piled == old(self).piled,
            final(self).children@ == old(self).children@.insert(i + 1, sib.root),
            final(self).model() == (TreeModel {
                data: old(self).model().data,
                kids: old(self).model().kids.insert(i + 1, sib.model()),
            }),
    {
        proof {
            lemma_kids_model(old(self).children@);
            lemma_forest_count_ge_len(kids_model(old(self).children@));
        }
        let root = sib.root;
        self.size.degree = self.size.degree + 1;
        self.size.descendants = self.size.descendants + 1 + root.size.descendants;
        self.children.insert(i + 1, root);
        proof {
            lemma_kids_model(self.children@);
            assert(kids_model(self.children@) =~= kids_model(old(self).children@).insert(
                i + 1,
                root.model(),
            ));
            lemma_forest_count_insert(
                kids_model(old(self).children@),
                i + 1,
                root.model(),
            );
        }
    }

    /// Mutable reference of the first child, or `None` if there is none.
    ///
    /// The caller is responsible for keeping the child's subtree size
    /// unchanged if the surrounding tree's bookkeeping is to stay
    /// well-formed; changing only the payload always does.
    pub fn front_mut(&mut self) -> (r: Option<&mut Node<T>>)
        ensures
            old(self).model().kids.len() == 0 ==> r is None && final(self).children@
                == old(self).children@,
            old(self).model().kids.len() > 0 ==> r is Some && *r.unwrap()
                == old(self).children@[0] && final(self).children@
                == old(self).children@.update(0, *final(r.unwrap())),
            final(self).data == old(self).data,
            final(self).size == old(self).size,
            final(self).piled == old(self).piled,
    {
        proof {
            lemma_kids_model(self.children@);
        }
        self.children.as_mut_slice().first_mut()
    }

    /// Mutable reference of the last child, or `None` if there is none.
    ///
    /// The same care about subtree sizes applies as for
    /// [`Node::front_mut`].
    pub fn back_mut(&mut self) -> (r: Option<&mut Node<T>>)
        ensures
            old(self).model().kids.len() == 0 ==> r is None && final(self).children@
                == old(self).children@,
            old(self).model().kids.len() > 0 ==> r is Some && *r.unwrap()
                == old(self).children@.last() && final(self).children@
                == old(self).children@.update(
                old(self).children@.len() - 1,
                *final(r.unwrap()),
            ),
            final(self).data == old(self).data,
            final(self).size == old(self).size,
            final(self).piled == old(self).piled,
    {
        proof {
            lemma_kids_model(self.children@);
        }
        self.children.as_mut_slice().last_mut()
    }

    /// Splices all of the forest's trees before the children, in one pass
    /// over the forest's tree list.
    pub fn prepend(&mut self, forest: crate::forest::Forest<T>)
        requires
            old(self).wf(),
            forest.wf(),
            tree_count(old(self).model()) + forest_count(forest.model()) <= usize::MAX,
        ensures
            final(self).wf(),
            final(self).data == old(self).data,
            final(self).piled == old(self).piled,
            final(self).children@ == forest.kids@ + old(self).children@,
            final(self).model() == (TreeModel {
                data: old(self).model().data,
                kids: forest.model() + old(self).model().kids,
            }),
    {
        proof {
            lemma_kids_model(old(self).children@);
            lemma_kids_model(forest.kids@);
            lemma_forest_count_ge_len(kids_model(old(self).children@));
            lemma_forest_count_ge_len(kids_model(forest.kids@));
        }
        let ghost fkids = forest.kids@;
        self.size.degree = self.size.degree + forest.size.degree;
        self.size.descendants = self.size.descendants + forest.size.descendants;
        let mut v = forest.kids;
        v.append(&mut self.children);
        self.children = v;
        proof {
            lemma_kids_model(self.children@);
            assert(kids_model(self.children@) =~= kids_model(fkids) + kids_model(
                old(self).children@,
            ));
            lemma_forest_count_concat(kids_model(fkids), kids_model(old(self).children@));
            assert forall|j: int| 0 <= j < self.children@.len() implies (
            #[trigger] self.children@[j]).wf() by {
                if j < fkids.len() {
                    assert(self.children@[j] == fkids[j]);
                    assert(fkids[j].wf());
                } else {
                    assert(self.children@[j] == old(self).children@[j - fkids.len()]);
                    assert(old(self).children@[j - fkids.len()].wf());
                }
            }
        }
    }

    /// Splices all of the forest's trees after the children, in one pass
    /// over the forest's tree list.
    pub fn append(&mut self, forest: crate::forest::Forest<T>)
        requires
            old(self).wf(),
            forest.wf(),
            tree_count(old(self).model()) + forest_count(forest.model()) <= usize::MAX,
        ensures
            final(self).wf(),
            final(self).data == old(self).data,
            final(self).piled == old(self).piled,
            final(self).children@ == old(self).children@ + forest.kids@,
            final(self).model() == (TreeModel {
                data: old(self).model().data,
                kids: old(self).model().kids + forest.model(),
            }),
    {
        proof {
            lemma_kids_model(old(self).children@);
            lemma_kids_model(forest.kids@);
            lemma_forest_count_ge_len(kids_model(old(self).children@));
            lemma_forest_count_ge_len(kids_model(forest.kids@));
        }
        let mut forest = forest;
        let ghost fkids = forest.kids@;
        self.size.degree = self.size.degree + forest.size.degree;
        self.size.descendants = self.size.descendants + forest.size.descendants;
        self.children.append(&mut forest.kids);
        proof {
            lemma_kids_model(self.children@);
            assert(kids_model(self.children@) =~= kids_model(old(self).children@)
                + kids_model(fkids));
            lemma_forest_count_concat(kids_model(old(self).children@), kids_model(fkids));
            assert forall|j: int| 0 <= j < self.children@.len() implies (
            #[trigger] self.children@[j]).wf() by {
                if j < old(self).children@.len() {
                    assert(self.children@[j] == old(self).children@[j]);
                    assert(old(self).children@[j].wf());
                } else {
                    assert(self.children@[j] == fkids[j - old(self).children@.len()]);
                    assert(fkids[j - old(self).children@.len()].wf());
                }
            }
        }
    }

    /// Unlinks the `i`-th child and returns it as an independent tree.
    pub fn detach(&mut self, i: usize) -> (r: Tree<T>)
        requires
            old(self).wf(),
            i < old(self).model().kids.len(),
        ensures
            final(self).wf(),
            r.wf(),
            final(self).data == old(self).data,
            final(self).piled == old(self).piled,
            r.root == old(self).children@[i as int],
            r.model() == old(self).model().kids[i as int],
            final(self).children@ == old(self).children@.remove(i as int),
            final(self).model() == (TreeModel {
                data: old(self).model().data,
                kids: old(self).model().kids.remove(i as int),
            }),
    {
        proof {
            lemma_kids_model(old(self).children@);
            lemma_forest_count_remove(kids_model(old(self).children@), i as int);
            lemma_forest_count_ge_len(
                kids_model(old(self).children@).remove(i as int),
            );
        }
        let root = self.children.remove(i);
        proof {
            assert(old(self).children@[i as int].wf());
            assert(kids_model(old(self).children@)[i as int] == root.model());
            assert(tree_count(root.model()) == 1 + root.size.descendants);
        }
        self.size.degree = self.size.degree - 1;
        self.size.descendants = self.size.descendants - 1 - root.size.descendants;
        proof {
            lemma_kids_model(self.children@);
            assert(kids_model(self.children@) =~= kids_model(old(self).children@).remove(
                i as int,
            ));
            assert forall|j: int| 0 <= j < self.children@.len() implies (
            #[trigger] self.children@[j]).wf() by {
                if j < i {
                    assert(self.children@[j] == old(self).children@[j]);
                    assert(old(self).children@[j].wf());
                } else {
                    assert(self.children@[j] == old(self).children@[j + 1]);
                    assert(old(self).children@[j + 1].wf());
                }
            }
        }
        Tree { root }
    }
}


/// The subtree `sub` occurs somewhere in `t` (as `t` itself or below).
pub open spec fn subtree_in<T>(sub: TreeModel<T>, t: TreeModel<T>) -> bool
    decreases t,
{
    sub == t || exists|i: int| 0 <= i < t.kids.len() && subtree_in(sub, #[trigger] t.kids[i])
}

/// Some node of the tree holds a payload equal (by `eq_spec`) to `x`.
pub open spec fn tree_has<T: PartialEq>(t: TreeModel<T>, x: T) -> bool
    decreases t,
{
    t.data.eq_spec(&x) || forest_has(t.kids, x)
}

/// Some node of the forest holds a payload equal (by `eq_spec`) to `x`.
pub open spec fn forest_has<T: PartialEq>(q: Seq<TreeModel<T>>, x: T) -> bool
    decreases q,
{
    q.len() > 0 && (tree_has(q[0], x) || forest_has(q.subrange(1, q.len() as int), x))
}

/// Extending the searched prefix by one tree.
proof fn lemma_forest_has_snoc<T: PartialEq>(q: Seq<TreeModel<T>>, x: T, k: int)
    requires
        0 <= k < q.len(),
    ensures
        forest_has(q.subrange(0, k + 1), x) == (forest_has(q.subrange(0, k), x) || tree_has(
            q[k],
            x,
        )),
    decreases k,
{
    let a = q.subrange(0, k + 1);
    if k == 0 {
        assert(a[0] == q[0]);
        assert(a.subrange(1, 1) =~= Seq::<TreeModel<T>>::empty());
        assert(q.subrange(0, 0) =~= Seq::<TreeModel<T>>::empty());
    } else {
        let q1 = q.subrange(1, q.len() as int);
        lemma_forest_has_snoc(q1, x, k - 1);
        assert(a[0] == q[0]);
        assert(a.subrange(1, a.len() as int) =~= q1.subrange(0, k));
        assert(q.subrange(0, k)[0] == q[0]);
        assert(q.subrange(0, k).subrange(1, k) =~= q1.subrange(0, k - 1));
        assert(q1[k - 1] == q[k]);
    }
}

impl<T: PartialEq> Node<T> {
    /// Finds the first node of this subtree, in preorder, whose payload
    /// equals the given one; `None` if there is none.  The match is by
    /// `T`'s own equality; where that equality obeys its specification,
    /// presence and absence are exact.
    pub fn locate_first_by_data(&self, data: &T) -> (r: Option<&Node<T>>)
        requires
            self.wf(),
        ensures
            r is Some ==> r.unwrap().wf() && subtree_in(r.unwrap().model(), self.model()),
            <T as PartialEqSpec<T>>::obeys_eq_spec() ==> ((r is Some) <==> tree_has(self.model(), *data)),
            <T as PartialEqSpec<T>>::obeys_eq_spec() && r is Some ==> r.unwrap().model().data.eq_spec(data),
        decreases tree_count(self.model()),
    {
        proof {
            lemma_kids_model(self.children@);
        }
        if self.data == *data {
            return Some(self);
        }
        let deg = self.children.len();
        let mut k: usize = 0;
        while k < deg
            invariant
                0 <= k <= deg,
                self.wf(),
                deg == self.children@.len(),
                deg == self.model().kids.len(),
                <T as PartialEqSpec<T>>::obeys_eq_spec() ==> !self.model().data.eq_spec(data),
                <T as PartialEqSpec<T>>::obeys_eq_spec() ==> !forest_has(
                    self.model().kids.subrange(0, k as int),
                    *data,
                ),
            decreases deg - k,
        {
            proof {
                lemma_kids_model(self.children@);
                crate::model::lemma_forest_count_member(
                    kids_model(self.children@),
                    k as int,
                );
            }
            let found = self.child(k).locate_first_by_data(data);
            if found.is_some() {
                proof {
                    assert(subtree_in(found.unwrap().model(), self.model())) by {
                        assert(subtree_in(
                            found.unwrap().model(),
                            self.model().kids[k as int],
                        ));
                    }
                    if <T as PartialEqSpec<T>>::obeys_eq_spec() {
                        assert(tree_has(self.model(), *data)) by {
                            lemma_forest_has_contains(self.model().kids, *data, k as int);
                        }
                    }
                }
                return found;
            }
            proof {
                lemma_forest_has_snoc(self.model().kids, *data, k as int);
            }
            k = k + 1;
        }
        proof {
            if <T as PartialEqSpec<T>>::obeys_eq_spec() {
                assert(self.model().kids.subrange(0, deg as int) =~= self.model().kids);
            }
        }
        None
    }
}

/// A hit in one tree of a forest is a hit in the forest.
proof fn lemma_forest_has_contains<T: PartialEq>(q: Seq<TreeModel<T>>, x: T, k: int)
    requires
        0 <= k < q.len(),
        tree_has(q[k], x),
    ensures
        forest_has(q, x),
    decreases k,
{
    if k > 0 {
        let q1 = q.subrange(1, q.len() as int);
        lemma_forest_has_contains(q1, x, k - 1);
        assert(q1[k - 1] == q[k]);
    }
}

} // verus!
