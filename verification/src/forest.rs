//! A forest: the owner of an ordered list of trees.

use vstd::prelude::*;

use crate::model::{
    forest_count, lemma_forest_count_concat, lemma_forest_count_ge_len,
    lemma_forest_count_insert, lemma_forest_count_remove, tree_count, TreeModel,
};
use crate::node::{kids_model, lemma_kids_model, Node};
use crate::size::Size;
use crate::tree::Tree;

verus! {

/// An ordered list of trees, with the same cached size bookkeeping as a
/// node: `size.degree` counts the trees, `size.descendants` counts every
/// node the forest owns.
pub struct Forest<T> {
    pub kids: Vec<Node<T>>,
    pub size: Size,
}

impl<T> Forest<T> {
    /// The model of the forest: the models of its trees, in order.
    pub open spec fn model(&self) -> Seq<TreeModel<T>> {
        kids_model(self.kids@)
    }

    /// Well-formedness: the cached counts match the actual shape, in the
    /// forest and in every node below it.
    pub open spec fn wf(&self) -> bool {
        &&& self.size.degree == self.kids@.len()
        &&& self.size.descendants == forest_count(kids_model(self.kids@))
        &&& forall|i: int| 0 <= i < self.kids@.len() ==> (#[trigger] self.kids@[i]).wf()
    }

    /// Makes an empty forest.
    pub fn new() -> (f: Forest<T>)
        ensures
            f.wf(),
            f.model() == Seq::<TreeModel<T>>::empty(),
    {
        let f = Forest { kids: Vec::new(), size: Size::empty() };
        proof {
            lemma_kids_model(f.kids@);
            assert(kids_model(f.kids@) =~= Seq::<TreeModel<T>>::empty());
        }
        f
    }

    /// Returns `true` if the forest owns no tree.
    pub fn has_no_child(&self) -> (r: bool)
        ensures
            r == (self.model().len() == 0),
    {
        proof {
            lemma_kids_model(self.kids@);
        }
        self.kids.len() == 0
    }

    /// Number of trees in the forest.
    pub fn degree(&self) -> (r: usize)
        requires
            self.wf(),
        ensures
            r == self.model().len(),
    {
        proof {
            lemma_kids_model(self.kids@);
        }
        self.size.degree
    }

    /// Number of nodes the forest owns.
    pub fn node_count(&self) -> (r: usize)
        requires
            self.wf(),
        ensures
            r == forest_count(self.model()),
    {
        self.size.descendants
    }

    /// Reference of the root node of the first tree, or `None` if the
    /// forest is empty.
    pub fn front(&self) -> (r: Option<&Node<T>>)
        ensures
            self.model().len() == 0 <==> r is None,
            self.model().len() > 0 ==> r is Some && *r.unwrap() == self.kids@[0]
                && r.unwrap().model() == self.model()[0],
    {
        proof {
            lemma_kids_model(self.kids@);
        }
        if self.kids.len() == 0 {
            None
        } else {
            Some(&self.kids[0])
        }
    }

    /// Reference of the root node of the last tree, or `None` if the
    /// forest is empty.
    pub fn back(&self) -> (r: Option<&Node<T>>)
        ensures
            self.model().len() == 0 <==> r is None,
            self.model().len() > 0 ==> r is Some && *r.unwrap() == self.kids@[self.kids@.len()
                - 1] && r.unwrap().model() == self.model()[self.model().len() - 1],
    {
        proof {
            lemma_kids_model(self.kids@);
        }
        if self.kids.len() == 0 {
            None
        } else {
            Some(&self.kids[self.kids.len() - 1])
        }
    }

    /// Mutable reference of the root node of the first tree, or `None`.
    ///
    /// The caller is responsible for keeping the tree's subtree size
    /// unchanged if the forest's bookkeeping is to stay well formed;
    /// changing only payloads always does.
    pub fn front_mut(&mut self) -> (r: Option<&mut Node<T>>)
        ensures
            old(self).model().len() == 0 ==> r is None && final(self).kids@
                == old(self).kids@,
            old(self).model().len() > 0 ==> r is Some && *r.unwrap() == old(self).kids@[0]
                && final(self).kids@ == old(self).kids@.update(0, *final(r.unwrap())),
            final(self).size == old(self).size,
    {
        proof {
            lemma_kids_model(self.kids@);
        }
        self.kids.as_mut_slice().first_mut()
    }

    /// Mutable reference of the root node of the last tree, or `None`.
    ///
    /// The same care about subtree sizes applies as for
    /// [`Forest::front_mut`].
    pub fn back_mut(&mut self) -> (r: Option<&mut Node<T>>)
        ensures
            old(self).model().len() == 0 ==> r is None && final(self).kids@
                == old(self).kids@,
            old(self).model().len() > 0 ==> r is Some && *r.unwrap()
                == old(self).kids@.last() && final(self).kids@ == old(self).kids@.update(
                old(self).kids@.len() - 1,
                *final(r.unwrap()),
            ),
            final(self).size == old(self).size,
    {
        proof {
            lemma_kids_model(self.kids@);
        }
        self.kids.as_mut_slice().last_mut()
    }

    /// Mutable reference of the root node of the `i`-th tree.
    pub fn tree_mut(&mut self, i: usize) -> (r: &mut Node<T>)
        requires
            i < old(self).model().len(),
        ensures
            *r == old(self).kids@[i as int],
            old(self).wf() ==> (*r).wf(),
            final(self).size == old(self).size,
            final(self).kids@ == old(self).kids@.update(i as int, *final(r)),
    {
        proof {
            lemma_kids_model(self.kids@);
        }
        vstd::std_specs::vec::vec_index_mut(&mut self.kids, i)
    }

    /// Adds the tree as the first tree of the forest.
    pub fn push_front(&mut self, tree: Tree<T>)
        requires
            old(self).wf(),
            tree.wf(),
            forest_count(old(self).model()) + tree_count(tree.model()) <= usize::MAX,
        ensures
            final(self).wf(),
            final(self).kids@ == old(self).kids@.insert(0, tree.root),
            final(self).model() == old(self).model().insert(0, tree.model()),
    {
        proof {
            lemma_kids_model(old(self).kids@);
            lemma_forest_count_ge_len(kids_model(old(self).kids@));
        }
        let root = tree.root;
        self.size.degree = self.size.degree + 1;
        self.size.descendants = self.size.descendants + 1 + root.size.descendants;
        self.kids.insert(0, root);
        proof {
            lemma_kids_model(self.kids@);
            assert(kids_model(self.kids@) =~= kids_model(old(self).kids@).insert(
                0,
                root.model(),
            ));
            lemma_forest_count_insert(kids_model(old(self).kids@), 0, root.model());
        }
    }

    /// Adds the tree as the last tree of the forest.
    pub fn push_back(&mut self, tree: Tree<T>)
        requires
            old(self).wf(),
            tree.wf(),
            forest_count(old(self).model()) + tree_count(tree.model()) <= usize::MAX,
        ensures
            final(self).wf(),
            final(self).kids@ == old(self).kids@.push(tree.root),
            final(self).model() == old(self).model().push(tree.model()),
    {
        proof {
            lemma_kids_model(old(self).kids@);
            lemma_forest_count_ge_len(kids_model(old(self).kids@));
        }
        let root = tree.root;
        self.size.degree = self.size.degree + 1;
        self.size.descendants = self.size.descendants + 1 + root.size.descendants;
        self.kids.push(root);
        proof {
            lemma_kids_model(self.kids@);
            assert(kids_model(self.kids@) =~= kids_model(old(self).kids@).push(root.model()));
            crate::model::lemma_forest_count_push(kids_model(old(self).kids@), root.model());
        }
    }

    /// Removes and returns the first tree, or `None` if the forest is
    /// empty.
    pub fn pop_front(&mut self) -> (r: Option<Tree<T>>)
        requires
            old(self).wf(),
        ensures
            final(self).wf(),
            old(self).model().len() == 0 ==> r is None && *final(self) == *old(self),
            old(self).model().len() > 0 ==> r is Some && r.unwrap().wf()
                && r.unwrap().root == old(self).kids@[0]
                && r.unwrap().model() == old(self).model()[0]
                && final(self).kids@ == old(self).kids@.drop_first()
                && final(self).model() == old(self).model().drop_first(),
    {
        proof {
            lemma_kids_model(old(self).kids@);
        }
        if self.kids.len() == 0 {
            return None;
        }
        proof {
            lemma_forest_count_remove(kids_model(old(self).kids@), 0);
            lemma_forest_count_ge_len(kids_model(old(self).kids@).remove(0));
        }
        let root = self.kids.remove(0);
        proof {
            assert(old(self).kids@[0].wf());
            assert(kids_model(old(self).kids@)[0] == root.model());
            assert(tree_count(root.model()) == 1 + root.size.descendants);
        }
        self.size.degree = self.size.degree - 1;
        self.size.descendants = self.size.descendants - 1 - root.size.descendants;
        proof {
            lemma_kids_model(self.kids@);
            assert(self.kids@ =~= old(self).kids@.drop_first());
            assert(kids_model(self.kids@) =~= kids_model(old(self).kids@).remove(0));
            assert(kids_model(old(self).kids@).remove(0) =~= kids_model(
                old(self).kids@,
            ).drop_first());
            assert forall|j: int| 0 <= j < self.kids@.len() implies (
            #[trigger] self.kids@[j]).wf() by {
                assert(self.kids@[j] == old(self).kids@[j + 1]);
                assert(old(self).kids@[j + 1].wf());
            }
        }
        Some(Tree { root })
    }

    /// Removes and returns the last tree, or `None` if the forest is
    /// empty.
    pub fn pop_back(&mut self) -> (r: Option<Tree<T>>)
        requires
            old(self).wf(),
        ensures
            final(self).wf(),
            old(self).model().len() == 0 ==> r is None && *final(self) == *old(self),
            old(self).model().len() > 0 ==> r is Some && r.unwrap().wf()
                && r.unwrap().root == old(self).kids@.last()
                && r.unwrap().model() == old(self).model().last()
                && final(self).kids@ == old(self).kids@.drop_last()
                && final(self).model() == old(self).model().drop_last(),
    {
        proof {
            lemma_kids_model(old(self).kids@);
        }
        if self.kids.len() == 0 {
            return None;
        }
        let n = self.kids.len();
        proof {
            lemma_forest_count_remove(kids_model(old(self).kids@), n - 1);
            lemma_forest_count_ge_len(kids_model(old(self).kids@).remove(n - 1));
        }
        let root = self.kids.pop().unwrap();
        proof {
            assert(old(self).kids@[n - 1].wf());
            assert(kids_model(old(self).kids@)[n - 1] == root.model());
            assert(tree_count(root.model()) == 1 + root.size.descendants);
        }
        self.size.degree = self.size.degree - 1;
        self.size.descendants = self.size.descendants - 1 - root.size.descendants;
        proof {
            lemma_kids_model(self.kids@);
            assert(self.kids@ =~= old(self).kids@.drop_last());
            assert(kids_model(self.kids@) =~= kids_model(old(self).kids@).remove(n - 1));
            assert(kids_model(old(self).kids@).remove(n - 1) =~= kids_model(
                old(self).kids@,
            ).drop_last());
            assert forall|j: int| 0 <= j < self.kids@.len() implies (
            #[trigger] self.kids@[j]).wf() by {
                assert(self.kids@[j] == old(self).kids@[j]);
                assert(old(self).kids@[j].wf());
            }
        }
        Some(Tree { root })
    }

    /// Appends the tree as the last child of this forest's last tree.
    pub fn push_back_under_back(&mut self, tree: Tree<T>)
        requires
            old(self).wf(),
            tree.wf(),
            old(self).model().len() > 0,
            forest_count(old(self).model()) + tree_count(tree.model()) <= usize::MAX,
        ensures
            final(self).wf(),
            final(self).model() == old(self).model().update(
                old(self).model().len() - 1,
                TreeModel {
                    data: old(self).model().last().data,
                    kids: old(self).model().last().kids.push(tree.model()),
                },
            ),
    {
        proof {
            lemma_kids_model(old(self).kids@);
            lemma_forest_count_ge_len(kids_model(old(self).kids@));
            crate::model::lemma_forest_count_member(
                kids_model(old(self).kids@),
                old(self).kids@.len() - 1,
            );
        }
        let i = self.kids.len() - 1;
        let ghost tm = tree.model();
        let delta = tree.root.size.descendants;
        let last = vstd::std_specs::vec::vec_index_mut(&mut self.kids, i);
        last.push_back(tree);
        self.size.descendants = self.size.descendants + 1 + delta;
        proof {
            lemma_kids_model(self.kids@);
            assert(kids_model(self.kids@) =~= kids_model(old(self).kids@).update(
                i as int,
                self.kids@[i as int].model(),
            ));
            lemma_forest_count_remove(kids_model(old(self).kids@), i as int);
            lemma_forest_count_remove(kids_model(self.kids@), i as int);
            assert(kids_model(self.kids@).remove(i as int) =~= kids_model(
                old(self).kids@,
            ).remove(i as int));
            crate::model::lemma_forest_count_push(
                kids_model(old(self).kids@)[i as int].kids,
                tm,
            );
            assert forall|j: int| 0 <= j < self.kids@.len() implies (
            #[trigger] self.kids@[j]).wf() by {
                if j != i {
                    assert(self.kids@[j] == old(self).kids@[j]);
                    assert(old(self).kids@[j].wf());
                }
            }
            assert(self.model() =~= old(self).model().update(
                old(self).model().len() - 1,
                TreeModel {
                    data: old(self).model().last().data,
                    kids: old(self).model().last().kids.push(tm),
                },
            ));
        }
    }

    /// Splices the other forest's trees after the children of this
    /// forest's last tree.
    pub fn append_under_back(&mut self, forest: Forest<T>)
        requires
            old(self).wf(),
            forest.wf(),
            old(self).model().len() > 0,
            forest_count(old(self).model()) + forest_count(forest.model()) <= usize::MAX,
        ensures
            final(self).wf(),
            final(self).model() == old(self).model().update(
                old(self).model().len() - 1,
                TreeModel {
                    data: old(self).model().last().data,
                    kids: old(self).model().last().kids + forest.model(),
                },
            ),
    {
        proof {
            lemma_kids_model(old(self).kids@);
            lemma_forest_count_ge_len(kids_model(old(self).kids@));
            crate::model::lemma_forest_count_member(
                kids_model(old(self).kids@),
                old(self).kids@.len() - 1,
            );
        }
        let i = self.kids.len() - 1;
        let ghost fm = forest.model();
        let delta = forest.size.descendants;
        let last = vstd::std_specs::vec::vec_index_mut(&mut self.kids, i);
        last.append(forest);
        self.size.descendants = self.size.descendants + delta;
        proof {
            lemma_kids_model(self.kids@);
            assert(kids_model(self.kids@) =~= kids_model(old(self).kids@).update(
                i as int,
                self.kids@[i as int].model(),
            ));
            lemma_forest_count_remove(kids_model(old(self).kids@), i as int);
            lemma_forest_count_remove(kids_model(self.kids@), i as int);
            assert(kids_model(self.kids@).remove(i as int) =~= kids_model(
                old(self).kids@,
            ).remove(i as int));
            lemma_forest_count_concat(kids_model(old(self).kids@)[i as int].kids, fm);
            assert forall|j: int| 0 <= j < self.kids@.len() implies (
            #[trigger] self.kids@[j]).wf() by {
                if j != i {
                    assert(self.kids@[j] == old(self).kids@[j]);
                    assert(old(self).kids@[j].wf());
                }
            }
            assert(self.model() =~= old(self).model().update(
                old(self).model().len() - 1,
                TreeModel {
                    data: old(self).model().last().data,
                    kids: old(self).model().last().kids + fm,
                },
            ));
        }
    }

    /// Splices all of the other forest's trees before this forest's
    /// trees, in one pass over the other forest's tree list.
    pub fn prepend(&mut self, forest: Forest<T>)
        requires
            old(self).wf(),
            forest.wf(),
            forest_count(old(self).model()) + forest_count(forest.model()) <= usize::MAX,
        ensures
            final(self).wf(),
            final(self).kids@ == forest.kids@ + old(self).kids@,
            final(self).model() == forest.model() + old(self).model(),
    {
        proof {
            lemma_kids_model(old(self).kids@);
            lemma_kids_model(forest.kids@);
            lemma_forest_count_ge_len(kids_model(old(self).kids@));
            lemma_forest_count_ge_len(kids_model(forest.kids@));
        }
        let ghost fkids = forest.kids@;
        self.size.degree = self.size.degree + forest.size.degree;
        self.size.descendants = self.size.descendants + forest.size.descendants;
        let mut v = forest.kids;
        v.append(&mut self.kids);
        self.kids = v;
        proof {
            lemma_kids_model(self.kids@);
            assert(kids_model(self.kids@) =~= kids_model(fkids) + kids_model(
                old(self).kids@,
            ));
            lemma_forest_count_concat(kids_model(fkids), kids_model(old(self).kids@));
            assert forall|j: int| 0 <= j < self.kids@.len() implies (
            #[trigger] self.kids@[j]).wf() by {
                if j < fkids.len() {
                    assert(self.kids@[j] == fkids[j]);
                    assert(fkids[j].wf());
                } else {
                    assert(self.kids@[j] == old(self).kids@[j - fkids.len()]);
                    assert(old(self).kids@[j - fkids.len()].wf());
                }
            }
        }
    }

    /// Splices all of the other forest's trees after this forest's trees,
    /// in one pass over the other forest's tree list.
    pub fn append(&mut self, forest: Forest<T>)
        requires
            old(self).wf(),
            forest.wf(),
            forest_count(old(self).model()) + forest_count(forest.model()) <= usize::MAX,
        ensures
            final(self).wf(),
            final(self).kids@ == old(self).kids@ + forest.kids@,
            final(self).model() == old(self).model() + forest.model(),
    {
        proof {
            lemma_kids_model(old(self).kids@);
            lemma_kids_model(forest.kids@);
            lemma_forest_count_ge_len(kids_model(old(self).kids@));
            lemma_forest_count_ge_len(kids_model(forest.kids@));
        }
        let mut forest = forest;
        let ghost fkids = forest.kids@;
        self.size.degree = self.size.degree + forest.size.degree;
        self.size.descendants = self.size.descendants + forest.size.descendants;
        self.kids.append(&mut forest.kids);
        proof {
            lemma_kids_model(self.kids@);
            assert(kids_model(self.kids@) =~= kids_model(old(self).kids@) + kids_model(fkids));
            lemma_forest_count_concat(kids_model(old(self).kids@), kids_model(fkids));
            assert forall|j: int| 0 <= j < self.kids@.len() implies (
            #[trigger] self.kids@[j]).wf() by {
                if j < old(self).kids@.len() {
                    assert(self.kids@[j] == old(self).kids@[j]);
                    assert(old(self).kids@[j].wf());
                } else {
                    assert(self.kids@[j] == fkids[j - old(self).kids@.len()]);
                    assert(fkids[j - old(self).kids@.len()].wf());
                }
            }
        }
    }
}

} // verus!
