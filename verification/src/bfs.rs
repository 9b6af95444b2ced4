//! Breadth-first linearization.
//!
//! A tree or forest is linearized into a sequence of [`Visit`]s in strict
//! level order.  Each visit carries the node's payload and its [`Size`],
//! which is enough to reconstruct the structure (see [`crate::bfs_impls`])
//! and to pre-size its storage.

use vstd::prelude::*;

use crate::forest::Forest;
use crate::model::{
    forest_count, lemma_forest_count_concat, lemma_forest_count_member, tree_count,
    TreeModel,
};
use crate::node::{kids_model, lemma_kids_model, Node};
use crate::size::Size;
use crate::tree::Tree;

verus! {

/// One node of a breadth-first traversal: its payload and its size.
#[derive(Debug, PartialEq, Eq)]
pub struct Visit<T> {
    pub data: T,
    pub size: Size,
}

/// Model of a visit: payload plus exact counts.
pub ghost struct VisitModel<T> {
    pub data: T,
    pub degree: nat,
    pub descendants: nat,
}

impl<T> Visit<T> {
    /// The model of this visit.
    pub open spec fn model(&self) -> VisitModel<T> {
        VisitModel {
            data: self.data,
            degree: self.size.degree as nat,
            descendants: self.size.descendants as nat,
        }
    }
}

/// The models of a sequence of visits, in order.
pub open spec fn visit_models<T>(s: Seq<Visit<T>>) -> Seq<VisitModel<T>> {
    s.map_values(|x: Visit<T>| x.model())
}

/// The visit a tree's root produces.
pub open spec fn visit_of<T>(t: TreeModel<T>) -> VisitModel<T> {
    VisitModel {
        data: t.data,
        degree: t.kids.len(),
        descendants: (tree_count(t) - 1) as nat,
    }
}

/// The level-order visit sequence of a forest: the first tree's root is
/// visited, then the remaining trees followed by the first root's
/// children are linearized in turn.
pub open spec fn bfs_visits<T>(q: Seq<TreeModel<T>>) -> Seq<VisitModel<T>>
    decreases forest_count(q) via bfs_visits_decreases::<T>
{
    if q.len() == 0 {
        Seq::empty()
    } else {
        seq![visit_of(q[0])] + bfs_visits(q.subrange(1, q.len() as int) + q[0].kids)
    }
}

#[via_fn]
proof fn bfs_visits_decreases<T>(q: Seq<TreeModel<T>>) {
    if q.len() > 0 {
        lemma_forest_count_concat(q.subrange(1, q.len() as int), q[0].kids);
    }
}

/// A linearized tree: the visit sequence plus the size of the whole
/// structure.
pub struct BfsTree<T> {
    pub visits: Vec<Visit<T>>,
    pub size: Size,
}

/// A linearized forest: the visit sequence plus the overall size.
pub struct BfsForest<T> {
    pub visits: Vec<Visit<T>>,
    pub size: Size,
}

/// A linearization of either a tree or a forest.
pub enum Bfs<T> {
    Tree(BfsTree<T>),
    Forest(BfsForest<T>),
}

impl<T> BfsTree<T> {
    /// Wraps the linearized tree.
    pub fn wrap(self) -> (r: Bfs<T>)
        ensures
            r == Bfs::Tree(self),
    {
        Bfs::Tree(self)
    }
}

impl<T> BfsForest<T> {
    /// Wraps the linearized forest.
    pub fn wrap(self) -> (r: Bfs<T>)
        ensures
            r == Bfs::Forest(self),
    {
        Bfs::Forest(self)
    }
}

impl<T> Bfs<T> {
    /// The visit sequence, for a tree and a forest alike.
    pub fn iter(self) -> (r: Vec<Visit<T>>)
        ensures
            r == match self {
                Bfs::Tree(t) => t.visits,
                Bfs::Forest(f) => f.visits,
            },
    {
        match self {
            Bfs::Tree(t) => t.visits,
            Bfs::Forest(f) => f.visits,
        }
    }

    /// The visit sequence together with the overall size.
    pub fn iter_and_size(self) -> (r: (Vec<Visit<T>>, Size))
        ensures
            r == match self {
                Bfs::Tree(t) => (t.visits, t.size),
                Bfs::Forest(f) => (f.visits, f.size),
            },
    {
        match self {
            Bfs::Tree(t) => (t.visits, t.size),
            Bfs::Forest(f) => (f.visits, f.size),
        }
    }

    /// The visit sequence if this came from a tree, `None` otherwise.
    pub fn tree_iter(self) -> (r: Option<Vec<Visit<T>>>)
        ensures
            r == match self {
                Bfs::Tree(t) => Some(t.visits),
                Bfs::Forest(_) => None::<Vec<Visit<T>>>,
            },
    {
        match self {
            Bfs::Tree(t) => Some(t.visits),
            Bfs::Forest(_) => None,
        }
    }

    /// The visit sequence if this came from a forest, `None` otherwise.
    pub fn forest_iter(self) -> (r: Option<Vec<Visit<T>>>)
        ensures
            r == match self {
                Bfs::Forest(f) => Some(f.visits),
                Bfs::Tree(_) => None::<Vec<Visit<T>>>,
            },
    {
        match self {
            Bfs::Forest(f) => Some(f.visits),
            Bfs::Tree(_) => None,
        }
    }
}

/// Linearizes a list of owned nodes in level order.
fn linearize<T>(roots: Vec<Node<T>>) -> (out: Vec<Visit<T>>)
    requires
        forall|i: int| 0 <= i < roots@.len() ==> (#[trigger] roots@[i]).wf(),
    ensures
        visit_models(out@) == bfs_visits(kids_model(roots@)),
{
    let ghost q0 = kids_model(roots@);
    let mut queue = roots;
    let mut out: Vec<Visit<T>> = Vec::new();
    proof {
        assert(visit_models(out@) + bfs_visits(kids_model(queue@)) =~= bfs_visits(q0));
    }
    while queue.len() > 0
        invariant
            forall|i: int| 0 <= i < queue@.len() ==> (#[trigger] queue@[i]).wf(),
            visit_models(out@) + bfs_visits(kids_model(queue@)) == bfs_visits(q0),
        decreases forest_count(kids_model(queue@)),
    {
        let ghost qm = kids_model(queue@);
        proof {
            lemma_kids_model(queue@);
        }
        let node = queue.remove(0);
        let Node { data, children, size, piled: _ } = node;
        let mut children = children;
        out.push(Visit { data, size });
        queue.append(&mut children);
        proof {
            let rest = qm.subrange(1, qm.len() as int);
            lemma_kids_model(queue@);
            lemma_kids_model(node.children@);
            assert(kids_model(queue@) =~= rest + node.model().kids);
            assert(node.model() == qm[0]);
            assert(visit_models(out@) =~= visit_models(old_out(out@)) + seq![
                Visit { data, size }.model(),
            ]) by {
                assert(out@.drop_last().map_values(|x: Visit<T>| x.model()) =~= visit_models(
                    out@.drop_last(),
                ));
            }
            assert(Visit { data, size }.model() == visit_of(qm[0]));
            assert(bfs_visits(qm) == seq![visit_of(qm[0])] + bfs_visits(rest + qm[0].kids));
            assert(visit_models(out@) + bfs_visits(kids_model(queue@)) =~= bfs_visits(q0));
            lemma_forest_count_concat(rest, qm[0].kids);
        }
    }
    proof {
        assert(bfs_visits(kids_model(queue@)) =~= Seq::<VisitModel<T>>::empty());
        assert(visit_models(out@) + Seq::<VisitModel<T>>::empty() =~= visit_models(out@));
    }
    out
}

/// Spec helper naming the output sequence before the last push.
spec fn old_out<T>(s: Seq<Visit<T>>) -> Seq<Visit<T>> {
    s.drop_last()
}

impl<T> Forest<T> {
    /// Linearizes the forest, consuming it.
    pub fn into_bfs(self) -> (b: BfsForest<T>)
        requires
            self.wf(),
        ensures
            visit_models(b.visits@) == bfs_visits(self.model()),
            b.size == self.size,
    {
        let size = self.size;
        let visits = linearize(self.kids);
        BfsForest { visits, size }
    }
}

impl<T> Tree<T> {
    /// Linearizes the tree, consuming it.
    pub fn into_bfs(self) -> (b: BfsTree<T>)
        requires
            self.wf(),
        ensures
            visit_models(b.visits@) == bfs_visits(seq![self.model()]),
            b.size == (Size { degree: 1, descendants: self.root.size.descendants }),
    {
        let size = Size { degree: 1, descendants: self.root.size.descendants };
        let mut roots: Vec<Node<T>> = Vec::new();
        let ghost m = self.model();
        roots.push(self.root);
        proof {
            lemma_kids_model(roots@);
            assert(kids_model(roots@) =~= seq![m]);
        }
        let visits = linearize(roots);
        BfsTree { visits, size }
    }
}

} // verus!
