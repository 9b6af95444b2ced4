//! Mathematical model of trees and forests.
//!
//! A tree is modelled as a payload plus the sequence of its child trees; a
//! forest is a sequence of trees.  The executable types in [`crate::node`],
//! [`crate::tree`] and [`crate::forest`] all state their contracts over
//! this model.

use vstd::prelude::*;

verus! {

/// Model of one tree: a payload and the models of its children, in order.
pub ghost struct TreeModel<T> {
    pub data: T,
    pub kids: Seq<TreeModel<T>>,
}

/// Number of nodes of a tree: the root plus all of its descendants.
pub open spec fn tree_count<T>(t: TreeModel<T>) -> nat
    decreases t,
{
    1 + forest_count(t.kids)
}

/// Total number of nodes of a forest.
pub open spec fn forest_count<T>(ts: Seq<TreeModel<T>>) -> nat
    decreases ts,
{
    if ts.len() == 0 {
        0
    } else {
        tree_count(ts[0]) + forest_count(ts.subrange(1, ts.len() as int))
    }
}

/// `forest_count` distributes over concatenation.
pub proof fn lemma_forest_count_concat<T>(a: Seq<TreeModel<T>>, b: Seq<TreeModel<T>>)
    ensures
        forest_count(a + b) == forest_count(a) + forest_count(b),
    decreases a.len(),
{
    if a.len() == 0 {
        assert(a + b =~= b);
    } else {
        let a1 = a.subrange(1, a.len() as int);
        lemma_forest_count_concat(a1, b);
        assert((a + b).subrange(1, (a + b).len() as int) =~= a1 + b);
        assert((a + b)[0] == a[0]);
    }
}

/// Appending one tree adds its node count.
pub proof fn lemma_forest_count_push<T>(ts: Seq<TreeModel<T>>, t: TreeModel<T>)
    ensures
        forest_count(ts.push(t)) == forest_count(ts) + tree_count(t),
{
    assert(ts.push(t) =~= ts + seq![t]);
    lemma_forest_count_concat(ts, seq![t]);
    assert(forest_count(seq![t]) == tree_count(t) + forest_count(
        seq![t].subrange(1, 1),
    ));
    assert(seq![t].subrange(1, 1) =~= Seq::<TreeModel<T>>::empty());
}

/// Removing the tree at index `i` subtracts its node count.
pub proof fn lemma_forest_count_remove<T>(ts: Seq<TreeModel<T>>, i: int)
    requires
        0 <= i < ts.len(),
    ensures
        forest_count(ts.remove(i)) + tree_count(ts[i]) == forest_count(ts),
{
    let left = ts.subrange(0, i);
    let mid = seq![ts[i]];
    let right = ts.subrange(i + 1, ts.len() as int);
    assert(ts =~= left + mid + right);
    lemma_forest_count_concat(left + mid, right);
    lemma_forest_count_concat(left, mid);
    lemma_forest_count_concat(left, right);
    assert(ts.remove(i) =~= left + right);
    assert(forest_count(mid) == tree_count(ts[i]) + forest_count(mid.subrange(1, 1)));
    assert(mid.subrange(1, 1) =~= Seq::<TreeModel<T>>::empty());
}

/// Inserting one tree at index `i` adds its node count.
pub proof fn lemma_forest_count_insert<T>(ts: Seq<TreeModel<T>>, i: int, t: TreeModel<T>)
    requires
        0 <= i <= ts.len(),
    ensures
        forest_count(ts.insert(i, t)) == forest_count(ts) + tree_count(t),
{
    lemma_forest_count_remove(ts.insert(i, t), i);
    assert(ts.insert(i, t).remove(i) =~= ts);
}

/// A forest has at least as many nodes as it has trees.
pub proof fn lemma_forest_count_ge_len<T>(ts: Seq<TreeModel<T>>)
    ensures
        forest_count(ts) >= ts.len(),
    decreases ts,
{
    if ts.len() > 0 {
        lemma_forest_count_ge_len(ts.subrange(1, ts.len() as int));
        assert(tree_count(ts[0]) >= 1);
        assert(ts.subrange(1, ts.len() as int).len() == ts.len() - 1);
    }
}

/// The count of every element of a forest is bounded by the forest's count.
pub proof fn lemma_forest_count_member<T>(ts: Seq<TreeModel<T>>, i: int)
    requires
        0 <= i < ts.len(),
    ensures
        tree_count(ts[i]) <= forest_count(ts),
{
    lemma_forest_count_remove(ts, i);
}

/// Relates two trees of the same shape whose payloads are pairwise related
/// by [`vstd::pervasive::cloned`]: the right tree could have been produced
/// by cloning every payload of the left one.
pub open spec fn tree_cloned<T: Clone>(a: TreeModel<T>, b: TreeModel<T>) -> bool
    decreases a,
{
    &&& cloned::<T>(a.data, b.data)
    &&& forest_cloned(a.kids, b.kids)
}

/// Pairwise [`tree_cloned`] over two forests.
pub open spec fn forest_cloned<T: Clone>(a: Seq<TreeModel<T>>, b: Seq<TreeModel<T>>) -> bool
    decreases a,
{
    &&& a.len() == b.len()
    &&& (a.len() > 0 ==> tree_cloned(a[0], b[0]) && forest_cloned(
        a.subrange(1, a.len() as int),
        b.subrange(1, b.len() as int),
    ))
}

/// Pairwise related trees make cloned forests.
pub proof fn lemma_forest_cloned_intro<T: Clone>(a: Seq<TreeModel<T>>, b: Seq<TreeModel<T>>)
    requires
        a.len() == b.len(),
        forall|i: int| 0 <= i < a.len() ==> tree_cloned(a[i], b[i]),
    ensures
        forest_cloned(a, b),
    decreases a.len(),
{
    if a.len() > 0 {
        let a1 = a.subrange(1, a.len() as int);
        let b1 = b.subrange(1, b.len() as int);
        assert(forall|i: int| 0 <= i < a1.len() ==> a1[i] == a[i + 1] && b1[i] == b[i + 1]);
        lemma_forest_cloned_intro(a1, b1);
    }
}

/// Cloned forests relate their members pairwise.
pub proof fn lemma_forest_cloned_index<T: Clone>(
    a: Seq<TreeModel<T>>,
    b: Seq<TreeModel<T>>,
    i: int,
)
    requires
        forest_cloned(a, b),
        0 <= i < a.len(),
    ensures
        tree_cloned(a[i], b[i]),
    decreases a.len(),
{
    if i > 0 {
        lemma_forest_cloned_index(
            a.subrange(1, a.len() as int),
            b.subrange(1, b.len() as int),
            i - 1,
        );
    }
}

/// Cloned trees have the same node counts throughout.
pub proof fn lemma_tree_cloned_count<T: Clone>(a: TreeModel<T>, b: TreeModel<T>)
    requires
        tree_cloned(a, b),
    ensures
        tree_count(a) == tree_count(b),
    decreases a,
{
    lemma_forest_cloned_count(a.kids, b.kids);
}

/// Cloned forests have the same node counts.
pub proof fn lemma_forest_cloned_count<T: Clone>(a: Seq<TreeModel<T>>, b: Seq<TreeModel<T>>)
    requires
        forest_cloned(a, b),
    ensures
        forest_count(a) == forest_count(b),
    decreases a,
{
    if a.len() > 0 {
        lemma_tree_cloned_count(a[0], b[0]);
        lemma_forest_cloned_count(
            a.subrange(1, a.len() as int),
            b.subrange(1, b.len() as int),
        );
    }
}

} // verus!
