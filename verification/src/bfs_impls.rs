//! Breadth-first reconstruction and deep cloning.
//!
//! A level-order visit stream determines a tree: in breadth-first
//! numbering the children of the node at stream index `i` occupy the
//! contiguous index block that starts where the blocks of all earlier
//! nodes end.  [`first_kid`] names that boundary, [`rebuild_at`] reads
//! the tree back out of the stream, and [`lemma_bfs_rebuild`] proves that
//! reading back the stream of a forest yields that forest: the round
//! trip.  The executable builders validate their input stream and then
//! assemble the nodes back to front, so reconstruction runs without
//! recursion.

use vstd::prelude::*;

use crate::bfs::{bfs_visits, visit_models, visit_of, Visit, VisitModel};
use crate::model::{
    forest_count, lemma_forest_count_concat, tree_cloned, tree_count, TreeModel,
};
use crate::node::{kids_model, lemma_kids_model, Node};
use crate::size::Size;
use crate::Error;

verus! {

/// Sum of the degrees of the first `i` visits.
pub open spec fn degsum<T>(v: Seq<VisitModel<T>>, i: int) -> nat
    decreases i,
{
    if i <= 0 {
        0
    } else {
        degsum(v, i - 1) + v[i - 1].degree
    }
}

/// Stream index of the first child of the node at stream index `i`,
/// when the stream describes a forest of `r` trees: the `r` roots come
/// first, then the children of earlier nodes, block by block.
pub open spec fn first_kid<T>(v: Seq<VisitModel<T>>, r: nat, i: int) -> nat {
    r + degsum(v, i)
}

/// A visit stream is a consistent level-order description of a forest of
/// `r` trees: every child block lies inside the stream and strictly after
/// its parent, and the blocks tile the stream exactly.
pub open spec fn stream_valid<T>(v: Seq<VisitModel<T>>, r: nat) -> bool {
    &&& r <= v.len()
    &&& first_kid(v, r, v.len() as int) == v.len()
    &&& forall|i: int|
        0 <= i < v.len() ==> #[trigger] first_kid(v, r, i) + v[i].degree <= v.len()
            && first_kid(v, r, i) >= i + 1
}

/// The tree rooted at stream index `i` of a valid stream.
pub open spec fn rebuild_at<T>(v: Seq<VisitModel<T>>, r: nat, i: int) -> TreeModel<T>
    decreases v.len() - i, 0int via rebuild_at_decreases::<T>
{
    if stream_valid(v, r) && 0 <= i < v.len() {
        TreeModel {
            data: v[i].data,
            kids: rebuild_kids(
                v,
                r,
                first_kid(v, r, i) as int,
                first_kid(v, r, i) + v[i].degree as int,
            ),
        }
    } else {
        TreeModel { data: arbitrary(), kids: Seq::empty() }
    }
}

/// The trees rooted at stream indices `lo .. hi` of a valid stream.
pub open spec fn rebuild_kids<T>(v: Seq<VisitModel<T>>, r: nat, lo: int, hi: int) -> Seq<
    TreeModel<T>,
>
    decreases v.len() - lo, hi - lo via rebuild_kids_decreases::<T>
{
    if stream_valid(v, r) && 0 <= lo && lo < hi && hi <= v.len() {
        seq![rebuild_at(v, r, lo)] + rebuild_kids(v, r, lo + 1, hi)
    } else {
        Seq::empty()
    }
}

#[via_fn]
proof fn rebuild_at_decreases<T>(v: Seq<VisitModel<T>>, r: nat, i: int) {
    if stream_valid(v, r) && 0 <= i < v.len() {
        assert(first_kid(v, r, i) >= i + 1);
    }
}

#[via_fn]
proof fn rebuild_kids_decreases<T>(v: Seq<VisitModel<T>>, r: nat, lo: int, hi: int) {
}

/// Pointwise characterization of [`rebuild_kids`].
pub proof fn lemma_rebuild_kids_index<T>(v: Seq<VisitModel<T>>, r: nat, lo: int, hi: int)
    requires
        stream_valid(v, r),
        0 <= lo <= hi <= v.len(),
    ensures
        rebuild_kids(v, r, lo, hi).len() == hi - lo,
        forall|t: int|
            0 <= t < hi - lo ==> rebuild_kids(v, r, lo, hi)[t] == rebuild_at(v, r, lo + t),
    decreases hi - lo,
{
    if lo < hi {
        lemma_rebuild_kids_index(v, r, lo + 1, hi);
    }
}

/// Degree sums shift by the head's degree when the head visit is peeled
/// off a stream.
proof fn lemma_degsum_shift<T>(v0: VisitModel<T>, v1: Seq<VisitModel<T>>, i: int)
    requires
        1 <= i <= v1.len() + 1,
    ensures
        degsum(seq![v0] + v1, i) == v0.degree + degsum(v1, i - 1),
    decreases i,
{
    let v = seq![v0] + v1;
    if i == 1 {
        assert(degsum(v, 1) == degsum(v, 0) + v[0].degree);
    } else {
        lemma_degsum_shift(v0, v1, i - 1);
        assert(v[i - 1] == v1[i - 2]);
    }
}

/// Peeling the head visit off a valid stream leaves a valid stream whose
/// root count absorbs the head's children.
proof fn lemma_stream_valid_shift<T>(v0: VisitModel<T>, v1: Seq<VisitModel<T>>, r: nat)
    requires
        r >= 1,
        stream_valid(seq![v0] + v1, r),
    ensures
        stream_valid(v1, (r - 1 + v0.degree) as nat),
{
    let v = seq![v0] + v1;
    let r1 = (r - 1 + v0.degree) as nat;
    let n = v.len() as int;
    assert(first_kid(v, r, 0) + v[0].degree <= n);
    assert(degsum(v, 0) == 0);
    assert(r1 <= v1.len());
    lemma_degsum_shift(v0, v1, n - 1 + 1);
    assert(first_kid(v1, r1, v1.len() as int) == v1.len());
    assert forall|i: int| 0 <= i < v1.len() implies #[trigger] first_kid(v1, r1, i)
        + v1[i].degree <= v1.len() && first_kid(v1, r1, i) >= i + 1 by {
        lemma_degsum_shift(v0, v1, i + 1);
        assert(first_kid(v, r, i + 1) + v[i + 1].degree <= n);
        assert(first_kid(v, r, i + 1) >= i + 2);
        assert(v[i + 1] == v1[i]);
        assert(first_kid(v, r, i + 1) == first_kid(v1, r1, i) + 1);
    }
}

/// Rebuilding from a stream with the head peeled off gives the same trees,
/// shifted by one stream position.
proof fn lemma_rebuild_shift<T>(v0: VisitModel<T>, v1: Seq<VisitModel<T>>, r: nat, i: int)
    requires
        r >= 1,
        stream_valid(seq![v0] + v1, r),
        1 <= i < (seq![v0] + v1).len(),
    ensures
        rebuild_at(seq![v0] + v1, r, i) == rebuild_at(
            v1,
            (r - 1 + v0.degree) as nat,
            i - 1,
        ),
    decreases (seq![v0] + v1).len() - i, 0int,
{
    let v = seq![v0] + v1;
    let r1 = (r - 1 + v0.degree) as nat;
    lemma_stream_valid_shift(v0, v1, r);
    lemma_degsum_shift(v0, v1, i);
    assert(v[i] == v1[i - 1]);
    assert(first_kid(v, r, i) == first_kid(v1, r1, i - 1) + 1);
    let lo = first_kid(v, r, i) as int;
    let hi = lo + v[i].degree;
    assert(first_kid(v, r, i) >= i + 1);
    assert(first_kid(v, r, i) + v[i].degree <= v.len());
    lemma_rebuild_shift_kids(v0, v1, r, lo, hi);
}

/// Block version of [`lemma_rebuild_shift`].
proof fn lemma_rebuild_shift_kids<T>(
    v0: VisitModel<T>,
    v1: Seq<VisitModel<T>>,
    r: nat,
    lo: int,
    hi: int,
)
    requires
        r >= 1,
        stream_valid(seq![v0] + v1, r),
        1 <= lo <= hi <= (seq![v0] + v1).len(),
    ensures
        rebuild_kids(seq![v0] + v1, r, lo, hi) == rebuild_kids(
            v1,
            (r - 1 + v0.degree) as nat,
            lo - 1,
            hi - 1,
        ),
    decreases (seq![v0] + v1).len() - lo, hi - lo + 1,
{
    let v = seq![v0] + v1;
    let r1 = (r - 1 + v0.degree) as nat;
    lemma_stream_valid_shift(v0, v1, r);
    if lo < hi {
        lemma_rebuild_shift(v0, v1, r, lo);
        lemma_rebuild_shift_kids(v0, v1, r, lo + 1, hi);
        assert(rebuild_kids(v, r, lo, hi) =~= rebuild_kids(v1, r1, lo - 1, hi - 1));
    } else {
        assert(rebuild_kids(v, r, lo, hi) =~= Seq::<TreeModel<T>>::empty());
        assert(rebuild_kids(v1, r1, lo - 1, hi - 1) =~= Seq::<TreeModel<T>>::empty());
    }
}

/// Degree sums grow with the index.
proof fn lemma_degsum_monotone<T>(v: Seq<VisitModel<T>>, a: int, b: int)
    requires
        a <= b,
    ensures
        degsum(v, a) <= degsum(v, b),
    decreases b - a,
{
    if a < b {
        lemma_degsum_monotone(v, a, b - 1);
    }
}

/// In a valid stream every non-root index lies in some parent's child
/// block.
proof fn lemma_parent_exists<T>(v: Seq<VisitModel<T>>, r: nat, j: int, k: int)
    requires
        stream_valid(v, r),
        r <= j < v.len(),
        0 <= k <= j,
        first_kid(v, r, k) <= j,
    ensures
        exists|p: int|
            0 <= p < v.len() && #[trigger] first_kid(v, r, p) <= j < first_kid(v, r, p)
                + v[p].degree,
    decreases v.len() - k,
{
    if first_kid(v, r, k + 1) > j {
        assert(first_kid(v, r, k) <= j < first_kid(v, r, k) + v[k].degree);
    } else {
        assert(first_kid(v, r, k + 1) >= k + 2);
        lemma_parent_exists(v, r, j, k + 1);
    }
}

/// Child blocks of distinct nodes are disjoint.
proof fn lemma_parent_unique<T>(v: Seq<VisitModel<T>>, r: nat, j: int, pa: int, pb: int)
    requires
        stream_valid(v, r),
        0 <= pa < v.len(),
        0 <= pb < v.len(),
        first_kid(v, r, pa) <= j < first_kid(v, r, pa) + v[pa].degree,
        first_kid(v, r, pb) <= j < first_kid(v, r, pb) + v[pb].degree,
    ensures
        pa == pb,
{
    if pa < pb {
        lemma_degsum_monotone(v, pa + 1, pb);
        assert(first_kid(v, r, pa + 1) == first_kid(v, r, pa) + v[pa].degree);
        assert(false);
    } else if pb < pa {
        lemma_degsum_monotone(v, pb + 1, pa);
        assert(first_kid(v, r, pb + 1) == first_kid(v, r, pb) + v[pb].degree);
        assert(false);
    }
}

/// The stream index of the parent of the node at index `j` (for `j` not a
/// root of the stream's forest).
pub open spec fn parent_idx<T>(v: Seq<VisitModel<T>>, r: nat, j: int) -> int {
    choose|p: int|
        0 <= p < v.len() && #[trigger] first_kid(v, r, p) <= j < first_kid(v, r, p)
            + v[p].degree
}

/// The parent index is well defined, below its child, and its block
/// contains the child.
proof fn lemma_parent_idx<T>(v: Seq<VisitModel<T>>, r: nat, j: int)
    requires
        stream_valid(v, r),
        r <= j < v.len(),
    ensures
        0 <= parent_idx(v, r, j) < j,
        first_kid(v, r, parent_idx(v, r, j)) <= j,
        j < first_kid(v, r, parent_idx(v, r, j)) + v[parent_idx(v, r, j)].degree,
        forall|p: int|
            0 <= p < v.len() && #[trigger] first_kid(v, r, p) <= j < first_kid(v, r, p)
                + v[p].degree ==> p == parent_idx(v, r, j),
{
    assert(first_kid(v, r, 0) == r + degsum(v, 0));
    assert(degsum(v, 0) == 0);
    lemma_parent_exists(v, r, j, 0);
    let pi = parent_idx(v, r, j);
    assert(first_kid(v, r, pi) <= j < first_kid(v, r, pi) + v[pi].degree);
    assert(first_kid(v, r, pi) >= pi + 1);
    assert forall|p: int|
        0 <= p < v.len() && #[trigger] first_kid(v, r, p) <= j < first_kid(v, r, p)
            + v[p].degree implies p == pi by {
        lemma_parent_unique(v, r, j, p, pi);
    }
}

/// Total node count of the trees held in the `Some` slots.
pub open spec fn opt_count_sum<T>(s: Seq<Option<crate::node::Node<T>>>) -> nat
    decreases s,
{
    if s.len() == 0 {
        0
    } else {
        (match s[0] {
            Some(n) => tree_count(n.model()),
            None => 0,
        }) + opt_count_sum(s.subrange(1, s.len() as int))
    }
}

/// How [`opt_count_sum`] changes under a single-slot update.
proof fn lemma_opt_sum_update<T>(
    s: Seq<Option<crate::node::Node<T>>>,
    j: int,
    x: Option<crate::node::Node<T>>,
)
    requires
        0 <= j < s.len(),
    ensures
        opt_count_sum(s.update(j, x)) + (match s[j] {
            Some(n) => tree_count(n.model()),
            None => 0,
        }) == opt_count_sum(s) + (match x {
            Some(n) => tree_count(n.model()),
            None => 0,
        }),
    decreases s.len(),
{
    let s2 = s.update(j, x);
    if j == 0 {
        assert(s2.subrange(1, s2.len() as int) =~= s.subrange(1, s.len() as int));
    } else {
        lemma_opt_sum_update(s.subrange(1, s.len() as int), j - 1, x);
        assert(s2.subrange(1, s2.len() as int) =~= s.subrange(1, s.len() as int).update(
            j - 1,
            x,
        ));
        assert(s2[0] == s[0]);
    }
}

/// The round-trip theorem: the level-order stream of any forest is a
/// valid stream, and rebuilding it gives back exactly that forest.
pub proof fn lemma_bfs_rebuild<T>(q: Seq<TreeModel<T>>)
    ensures
        stream_valid(bfs_visits(q), q.len()),
        bfs_visits(q).len() == forest_count(q),
        forall|j: int| 0 <= j < q.len() ==> rebuild_at(bfs_visits(q), q.len(), j) == q[j],
    decreases forest_count(q),
{
    let v = bfs_visits(q);
    let r = q.len();
    if q.len() == 0 {
        assert(v =~= Seq::<VisitModel<T>>::empty());
        assert(degsum(v, 0) == 0);
    } else {
        let q1 = q.subrange(1, q.len() as int) + q[0].kids;
        let v0 = visit_of(q[0]);
        let v1 = bfs_visits(q1);
        let d0 = q[0].kids.len();
        let r1 = q1.len();
        lemma_forest_count_concat(q.subrange(1, q.len() as int), q[0].kids);
        lemma_bfs_rebuild(q1);
        assert(v == seq![v0] + v1);
        assert(r1 == r - 1 + d0);
        // Validity of the combined stream.
        assert(v1.len() == forest_count(q1));
        let n = v.len() as int;
        assert forall|i: int| 1 <= i <= v1.len() + 1 implies #[trigger] degsum(v, i) == d0
            + degsum(v1, i - 1) by {
            lemma_degsum_shift(v0, v1, i);
        }
        assert(degsum(v, 0) == 0);
        assert(first_kid(v, r, n) == r + degsum(v, n));
        assert(degsum(v, n) == d0 + degsum(v1, n - 1));
        assert(first_kid(v1, r1, v1.len() as int) == v1.len());
        assert(first_kid(v, r, n) == v.len());
        assert forall|i: int| 0 <= i < v.len() implies #[trigger] first_kid(v, r, i)
            + v[i].degree <= v.len() && first_kid(v, r, i) >= i + 1 by {
            if i == 0 {
                assert(degsum(v, 0) == 0);
                assert(first_kid(v, r, 0) == r);
                assert(v[0] == v0);
                assert(r + d0 == r1 + 1);
                assert(r1 <= v1.len());
            } else {
                assert(degsum(v, i) == d0 + degsum(v1, i - 1));
                assert(first_kid(v, r, i) == first_kid(v1, r1, i - 1) + 1);
                assert(v[i] == v1[i - 1]);
                assert(first_kid(v1, r1, i - 1) + v1[i - 1].degree <= v1.len());
                assert(first_kid(v1, r1, i - 1) >= i);
            }
        }
        assert(stream_valid(v, r));
        // Every root rebuilds to the corresponding tree of the forest.
        assert forall|j: int| 0 <= j < q.len() implies rebuild_at(v, r, j) == q[j] by {
            if j == 0 {
                assert(degsum(v, 0) == 0);
                assert(first_kid(v, r, 0) == r);
                let lo = r as int;
                let hi = r + d0 as int;
                lemma_rebuild_kids_index(v, r, lo, hi);
                lemma_rebuild_kids_index(v1, r1, lo - 1, hi - 1);
                assert forall|t: int| 0 <= t < d0 implies rebuild_at(v, r, lo + t)
                    == q[0].kids[t] by {
                    lemma_rebuild_shift(v0, v1, r, lo + t);
                    assert(rebuild_at(v1, r1, lo + t - 1) == q1[lo + t - 1]);
                    assert(q1[r - 1 + t] == q[0].kids[t]);
                }
                assert(rebuild_at(v, r, 0).kids =~= q[0].kids);
                assert(rebuild_at(v, r, 0).data == q[0].data);
            } else {
                lemma_rebuild_shift(v0, v1, r, j);
                assert(rebuild_at(v1, r1, j - 1) == q1[j - 1]);
                assert(q1[j - 1] == q[j]);
            }
        }
    }
}

/// Takes the node out of slot `j`, leaving `None` behind.
fn take_slot<T>(built: &mut Vec<Option<Node<T>>>, j: usize) -> (r: Node<T>)
    requires
        j < old(built)@.len(),
        old(built)@[j as int] is Some,
    ensures
        r == old(built)@[j as int].unwrap(),
        final(built)@ == old(built)@.update(j as int, None::<Node<T>>),
{
    let mut tmp: Option<Node<T>> = None;
    core::mem::swap(&mut tmp, vstd::std_specs::vec::vec_index_mut(built, j));
    tmp.unwrap()
}

/// Rebuilds the nodes of a level-order visit stream claiming `r` roots.
///
/// The stream is validated first: the reconstruction does not trust the
/// degrees it carries.  On success the returned vector holds the `r`
/// root nodes, each one well formed and piled, together exactly the
/// forest the stream describes.
fn build_nodes<T>(visits: Vec<Visit<T>>, r: usize) -> (res: Result<Vec<Node<T>>, Error>)
    ensures
        res is Ok <==> stream_valid(visit_models(visits@), r as nat),
        res is Ok ==> res.unwrap()@.len() == r && forest_count(kids_model(res.unwrap()@))
            == visits@.len() && forall|j: int|
            0 <= j < r ==> (#[trigger] res.unwrap()@[j]).wf() && res.unwrap()@[j].model()
                == rebuild_at(visit_models(visits@), r as nat, j) && res.unwrap()@[j].uniform(
                true,
            ),
{
    let n = visits.len();
    let ghost vm = visit_models(visits@);
    let ghost rn = r as nat;
    proof {
        assert(vm.len() == n);
        assert(forall|k: int|
            0 <= k < n ==> (#[trigger] vm[k]) == visits@[k].model());
    }
    if r > n {
        return Err(Error::new("breadth-first stream has fewer visits than roots"));
    }
    // Validation: compute every child-block boundary and check that the
    // blocks tile the stream.
    let mut fks: Vec<usize> = Vec::new();
    fks.push(r);
    let mut i: usize = 0;
    proof {
        assert(degsum(vm, 0) == 0);
    }
    while i < n
        invariant
            i <= n,
            r <= n,
            rn == r as nat,
            n == vm.len(),
            n == visits@.len(),
            vm == visit_models(visits@),
            fks@.len() == i + 1,
            forall|k: int| 0 <= k <= i ==> fks@[k] == first_kid(vm, rn, k),
            forall|k: int|
                0 <= k < i ==> #[trigger] first_kid(vm, rn, k) + vm[k].degree <= n
                    && first_kid(vm, rn, k) >= k + 1,
            fks@[i as int] <= n,
        decreases n - i,
    {
        let fi = fks[i];
        if fi < i + 1 {
            proof {
                assert(first_kid(vm, rn, i as int) < i + 1);
                assert(stream_valid(vm, rn) ==> first_kid(vm, rn, i as int) >= i + 1);
            }
            return Err(Error::new("breadth-first stream is not in level order"));
        }
        let deg = visits[i].size.degree;
        proof {
            assert(vm[i as int] == visits@[i as int].model());
        }
        if deg > n - fi {
            proof {
                assert(first_kid(vm, rn, i as int) + vm[i as int].degree > n);
                assert(stream_valid(vm, rn) ==> first_kid(vm, rn, i as int)
                    + vm[i as int].degree <= n);
            }
            return Err(Error::new("breadth-first stream overruns its node count"));
        }
        fks.push(fi + deg);
        proof {
            assert(degsum(vm, i + 1) == degsum(vm, i as int) + vm[i as int].degree);
        }
        i = i + 1;
    }
    if fks[n] != n {
        proof {
            assert(first_kid(vm, rn, n as int) != n);
        }
        return Err(Error::new("breadth-first stream does not cover its node count"));
    }
    proof {
        assert(stream_valid(vm, rn));
    }
    // Assembly, back to front: when node `i` is assembled every node of
    // its child block already sits in its slot.
    let mut built: Vec<Option<Node<T>>> = Vec::new();
    while built.len() < n
        invariant
            built@.len() <= n,
            forall|j: int| 0 <= j < built@.len() ==> built@[j] is None,
        decreases n - built@.len(),
    {
        built.push(None);
    }
    proof {
        lemma_opt_sum_none(built@);
    }
    let ghost visits_all = visits@;
    let mut rem = visits;
    let mut i: usize = n;
    while i > 0
        invariant
            i <= n,
            r <= n,
            n == vm.len(),
            vm == visit_models(visits_all),
            n == visits_all.len(),
            rem@ == visits_all.subrange(0, i as int),
            stream_valid(vm, rn),
            rn == r as nat,
            fks@.len() == n + 1,
            forall|k: int| 0 <= k <= n ==> fks@[k] == first_kid(vm, rn, k),
            built@.len() == n,
            forall|j: int|
                0 <= j < n ==> ((#[trigger] built@[j]) is Some <==> (i <= j && (j < r
                    || parent_idx(vm, rn, j) < i))),
            forall|j: int|
                0 <= j < n && (#[trigger] built@[j]) is Some ==> built@[j].unwrap().wf()
                    && built@[j].unwrap().model() == rebuild_at(vm, rn, j)
                    && built@[j].unwrap().uniform(true),
            opt_count_sum(built@) == n - i,
        decreases i,
    {
        i = i - 1;
        let vis = rem.pop().unwrap();
        proof {
            assert(visits_all.subrange(0, i + 1).last() == visits_all[i as int]);
            assert(visits_all.subrange(0, i + 1).drop_last() =~= visits_all.subrange(
                0,
                i as int,
            ));
            assert(vm[i as int] == visits_all[i as int].model());
        }
        let lo = fks[i];
        let deg = vis.size.degree;
        proof {
            assert(first_kid(vm, rn, i as int) + vm[i as int].degree <= n);
            assert(first_kid(vm, rn, i as int) >= i + 1);
            assert(first_kid(vm, rn, i as int) >= rn);
            lemma_degsum_monotone(vm, 0, i as int);
        }
        let ghost built_start = built@;
        let mut cs: Vec<Node<T>> = Vec::new();
        let mut acc: usize = 0;
        let mut t: usize = 0;
        proof {
            lemma_kids_model(cs@);
            assert(kids_model(cs@) =~= Seq::<TreeModel<T>>::empty());
        }
        while t < deg
            invariant
                t <= deg,
                i < n,
                r <= n,
                n == vm.len(),
                stream_valid(vm, rn),
                rn == r as nat,
                lo == first_kid(vm, rn, i as int),
                deg == vm[i as int].degree,
                lo + deg <= n,
                lo >= i + 1,
                lo >= rn,
                built@.len() == n,
                cs@.len() == t,
                forall|u: int|
                    0 <= u < t ==> (#[trigger] cs@[u]).wf() && cs@[u].model() == rebuild_at(
                        vm,
                        rn,
                        lo + u,
                    ) && cs@[u].uniform(true),
                acc == forest_count(kids_model(cs@)),
                forall|j: int|
                    0 <= j < n ==> (#[trigger] built@[j]) == (if lo <= j < lo + t {
                        None::<Node<T>>
                    } else {
                        built_start[j]
                    }),
                forall|j: int|
                    0 <= j < n ==> ((#[trigger] built_start[j]) is Some <==> (i + 1 <= j && (j
                        < r || parent_idx(vm, rn, j) < i + 1))),
                forall|j: int|
                    0 <= j < n && (#[trigger] built_start[j]) is Some ==> built_start[
                        j
                    ].unwrap().wf() && built_start[j].unwrap().model() == rebuild_at(vm, rn, j)
                        && built_start[j].unwrap().uniform(true),
                opt_count_sum(built@) + acc == n - (i + 1),
            decreases deg - t,
        {
            proof {
                lemma_parent_idx(vm, rn, lo + t);
                assert(first_kid(vm, rn, i as int) <= lo + t < first_kid(vm, rn, i as int)
                    + vm[i as int].degree);
                assert(parent_idx(vm, rn, lo + t) == i);
                assert(built@[lo + t] == built_start[lo + t]);
                assert(built_start[lo + t] is Some);
            }
            let ghost pre_take = built@;
            let c = take_slot(&mut built, lo + t);
            proof {
                assert(c == pre_take[lo + t].unwrap());
                assert(c.wf());
                assert(c.model() == rebuild_at(vm, rn, lo + t));
                assert(tree_count(c.model()) == 1 + c.size.descendants);
                lemma_opt_sum_update(pre_take, lo + t, None::<Node<T>>);
                assert(opt_count_sum(built@) + tree_count(c.model()) == opt_count_sum(
                    pre_take,
                ));
                assert(acc + tree_count(c.model()) <= n - (i + 1));
            }
            acc = acc + 1 + c.size.descendants;
            let ghost cs_old = cs@;
            cs.push(c);
            t = t + 1;
            proof {
                lemma_kids_model(cs@);
                lemma_kids_model(cs_old);
                assert(kids_model(cs@) =~= kids_model(cs_old).push(c.model()));
                crate::model::lemma_forest_count_push(kids_model(cs_old), c.model());
            }
        }
        let ghost csm = kids_model(cs@);
        let node = Node {
            data: vis.data,
            children: cs,
            size: Size { degree: deg, descendants: acc },
            piled: true,
        };
        proof {
            lemma_kids_model(node.children@);
            lemma_rebuild_kids_index(vm, rn, lo as int, lo + deg);
            assert(kids_model(node.children@) =~= rebuild_at(vm, rn, i as int).kids);
            assert(node.wf());
            assert(node.model() == rebuild_at(vm, rn, i as int));
            assert(node.uniform(true));
        }
        let ghost before_place = built@;
        *vstd::std_specs::vec::vec_index_mut(&mut built, i) = Some(node);
        proof {
            lemma_opt_sum_update(before_place, i as int, Some(node));
            assert(before_place[i as int] is None);
            if i >= r {
                lemma_parent_idx(vm, rn, i as int);
            }
            assert forall|j: int| 0 <= j < n implies ((#[trigger] built@[j]) is Some <==> (i
                <= j && (j < r || parent_idx(vm, rn, j) < i))) by {
                if j == i {
                } else if lo <= j < lo + deg {
                    lemma_parent_idx(vm, rn, j);
                    assert(parent_idx(vm, rn, j) == i);
                } else {
                    assert(built@[j] == before_place[j]);
                    assert(before_place[j] == built_start[j]);
                    if j >= r && i + 1 <= j {
                        lemma_parent_idx(vm, rn, j);
                        if parent_idx(vm, rn, j) == i {
                            assert(first_kid(vm, rn, i as int) <= j < first_kid(vm, rn,
                            i as int) + vm[i as int].degree);
                            assert(false);
                        }
                    }
                }
            }
        }
    }
    proof {
        assert(rem@ =~= Seq::<Visit<T>>::empty());
        assert forall|k: int| r <= k < n implies (#[trigger] built@[k]) is None by {
            lemma_parent_idx(vm, rn, k);
        }
        lemma_kids_model(Seq::<Node<T>>::empty());
        assert(kids_model(Seq::<Node<T>>::empty()) =~= Seq::<TreeModel<T>>::empty());
    }
    // Hand the roots out, in order.
    let mut roots: Vec<Node<T>> = Vec::new();
    let mut j: usize = 0;
    while j < r
        invariant
            j <= r,
            r <= n,
            n == vm.len(),
            stream_valid(vm, rn),
            rn == r as nat,
            built@.len() == n,
            roots@.len() == j,
            forall|u: int|
                0 <= u < j ==> (#[trigger] roots@[u]).wf() && roots@[u].model() == rebuild_at(
                    vm,
                    rn,
                    u,
                ) && roots@[u].uniform(true),
            forall|k: int|
                j <= k < r ==> (#[trigger] built@[k]) is Some && built@[k].unwrap().wf()
                    && built@[k].unwrap().model() == rebuild_at(vm, rn, k)
                    && built@[k].unwrap().uniform(true),
            forall|k: int| r <= k < n ==> (#[trigger] built@[k]) is None,
            forall|k: int| 0 <= k < j ==> (#[trigger] built@[k]) is None,
            forest_count(kids_model(roots@)) + opt_count_sum(built@) == n,
        decreases r - j,
    {
        let ghost pre_take = built@;
        let ghost roots_old = roots@;
        let nd = take_slot(&mut built, j);
        roots.push(nd);
        proof {
            lemma_opt_sum_update(pre_take, j as int, None::<Node<T>>);
            lemma_kids_model(roots@);
            lemma_kids_model(roots_old);
            assert(kids_model(roots@) =~= kids_model(roots_old).push(nd.model()));
            crate::model::lemma_forest_count_push(kids_model(roots_old), nd.model());
            assert(tree_count(nd.model()) == 1 + nd.size.descendants);
        }
        j = j + 1;
    }
    proof {
        lemma_opt_sum_none(built@);
    }
    Ok(roots)
}

impl<T> crate::tree::Tree<T> {
    /// Rebuilds a tree from its level-order visit stream, after checking
    /// that the stream is consistent.  The nodes are piled: they are all
    /// built in this one call.
    pub fn from_bfs(bfs: crate::bfs::BfsTree<T>) -> (res: Result<crate::tree::Tree<T>, Error>)
        ensures
            res is Ok <==> stream_valid(visit_models(bfs.visits@), 1),
            res is Ok ==> res.unwrap().wf() && res.unwrap().model() == rebuild_at(
                visit_models(bfs.visits@),
                1,
                0,
            ) && res.unwrap().root.uniform(true),
    {
        match build_nodes(bfs.visits, 1) {
            Ok(roots) => {
                let mut roots = roots;
                let root = roots.pop().unwrap();
                Ok(crate::tree::Tree { root })
            },
            Err(e) => Err(e),
        }
    }
}

impl<T> crate::forest::Forest<T> {
    /// Rebuilds a forest from its level-order visit stream; the stream's
    /// size record tells how many trees the forest has.  The stream is
    /// checked for consistency and the nodes are piled.
    pub fn from_bfs(bfs: crate::bfs::BfsForest<T>) -> (res: Result<
        crate::forest::Forest<T>,
        Error,
    >)
        ensures
            res is Ok <==> stream_valid(visit_models(bfs.visits@), bfs.size.degree as nat),
            res is Ok ==> res.unwrap().wf() && res.unwrap().model().len() == bfs.size.degree
                && (forall|j: int|
                0 <= j < bfs.size.degree ==> res.unwrap().model()[j] == rebuild_at(
                    visit_models(bfs.visits@),
                    bfs.size.degree as nat,
                    j,
                )) && forall|j: int|
                0 <= j < bfs.size.degree ==> (#[trigger] res.unwrap().kids@[j]).uniform(true),
    {
        let r = bfs.size.degree;
        let n = bfs.visits.len();
        match build_nodes(bfs.visits, r) {
            Ok(kids) => {
                proof {
                    lemma_kids_model(kids@);
                }
                Ok(crate::forest::Forest { kids, size: Size { degree: r, descendants: n } })
            },
            Err(e) => Err(e),
        }
    }
}

/// Round trip for trees: linearizing any tree yields a valid stream, and
/// rebuilding that stream yields the tree itself, structurally and by
/// value.
pub proof fn lemma_tree_round_trip<T>(t: TreeModel<T>)
    ensures
        stream_valid(bfs_visits(seq![t]), 1),
        rebuild_at(bfs_visits(seq![t]), 1, 0) == t,
{
    lemma_bfs_rebuild(seq![t]);
}

/// Round trip for forests: linearizing any forest yields a valid stream,
/// and rebuilding that stream yields the same forest, tree by tree.
pub proof fn lemma_forest_round_trip<T>(q: Seq<TreeModel<T>>)
    ensures
        stream_valid(bfs_visits(q), q.len()),
        forall|j: int| 0 <= j < q.len() ==> rebuild_at(bfs_visits(q), q.len(), j) == q[j],
{
    lemma_bfs_rebuild(q);
}

/// Two visit streams of the same shape whose payloads are pairwise
/// clones of one another.
pub open spec fn visits_cloned<T: Clone>(a: Seq<VisitModel<T>>, b: Seq<VisitModel<T>>) -> bool {
    &&& a.len() == b.len()
    &&& forall|i: int|
        0 <= i < a.len() ==> cloned::<T>(a[i].data, (#[trigger] b[i]).data) && b[i].degree
            == a[i].degree && b[i].descendants == a[i].descendants
}

/// Degree sums agree on cloned streams.
proof fn lemma_degsum_cloned<T: Clone>(a: Seq<VisitModel<T>>, b: Seq<VisitModel<T>>, i: int)
    requires
        visits_cloned(a, b),
        i <= a.len(),
    ensures
        degsum(a, i) == degsum(b, i),
    decreases i,
{
    if i > 0 {
        lemma_degsum_cloned(a, b, i - 1);
    }
}

/// Validity carries over to cloned streams.
proof fn lemma_stream_valid_cloned<T: Clone>(
    a: Seq<VisitModel<T>>,
    b: Seq<VisitModel<T>>,
    r: nat,
)
    requires
        visits_cloned(a, b),
        stream_valid(a, r),
    ensures
        stream_valid(b, r),
{
    lemma_degsum_cloned(a, b, a.len() as int);
    assert forall|i: int| 0 <= i < b.len() implies #[trigger] first_kid(b, r, i)
        + b[i].degree <= b.len() && first_kid(b, r, i) >= i + 1 by {
        lemma_degsum_cloned(a, b, i);
        assert(first_kid(a, r, i) + a[i].degree <= a.len());
        assert(first_kid(a, r, i) >= i + 1);
    }
}

/// Rebuilding cloned streams gives trees whose payloads are pairwise
/// clones: cloning commutes with the round trip.
proof fn lemma_rebuild_cloned<T: Clone>(
    a: Seq<VisitModel<T>>,
    b: Seq<VisitModel<T>>,
    r: nat,
    i: int,
)
    requires
        visits_cloned(a, b),
        stream_valid(a, r),
        0 <= i < a.len(),
    ensures
        tree_cloned(rebuild_at(a, r, i), rebuild_at(b, r, i)),
    decreases a.len() - i,
{
    lemma_stream_valid_cloned(a, b, r);
    lemma_degsum_cloned(a, b, i);
    let lo = first_kid(a, r, i) as int;
    let hi = lo + a[i].degree as int;
    assert(first_kid(a, r, i) >= i + 1);
    assert(first_kid(a, r, i) + a[i].degree <= a.len());
    lemma_rebuild_kids_index(a, r, lo, hi);
    lemma_rebuild_kids_index(b, r, lo, hi);
    assert forall|t: int| 0 <= t < hi - lo implies tree_cloned(
        rebuild_kids(a, r, lo, hi)[t],
        rebuild_kids(b, r, lo, hi)[t],
    ) by {
        lemma_rebuild_cloned(a, b, r, lo + t);
    }
    crate::model::lemma_forest_cloned_intro(
        rebuild_kids(a, r, lo, hi),
        rebuild_kids(b, r, lo, hi),
    );
}

/// The models of a sequence of borrowed nodes, in order.
pub open spec fn refs_model<T>(s: Seq<&Node<T>>) -> Seq<TreeModel<T>>
    decreases s,
{
    if s.len() == 0 {
        Seq::empty()
    } else {
        seq![s[0].model()] + refs_model(s.subrange(1, s.len() as int))
    }
}

/// Pointwise characterization of [`refs_model`].
proof fn lemma_refs_model<T>(s: Seq<&Node<T>>)
    ensures
        refs_model(s).len() == s.len(),
        forall|i: int| 0 <= i < s.len() ==> refs_model(s)[i] == s[i].model(),
    decreases s,
{
    if s.len() > 0 {
        lemma_refs_model(s.subrange(1, s.len() as int));
    }
}

/// Linearizes borrowed nodes in level order, cloning each payload.
#[verifier::loop_isolation(false)]
fn linearize_refs<T: Clone>(roots: Vec<&Node<T>>) -> (out: Vec<Visit<T>>)
    requires
        forall|i: int| 0 <= i < roots@.len() ==> (#[trigger] roots@[i]).wf(),
    ensures
        visits_cloned(bfs_visits(refs_model(roots@)), visit_models(out@)),
{
    let ghost q0 = refs_model(roots@);
    let mut queue = roots;
    let mut out: Vec<Visit<T>> = Vec::new();
    let ghost done: Seq<VisitModel<T>> = Seq::empty();
    let mut done = Ghost(done);
    proof {
        assert(done@ + bfs_visits(refs_model(queue@)) =~= bfs_visits(q0));
        assert(visits_cloned(done@, visit_models(out@)));
    }
    while queue.len() > 0
        invariant
            forall|i: int| 0 <= i < queue@.len() ==> (#[trigger] queue@[i]).wf(),
            done@ + bfs_visits(refs_model(queue@)) == bfs_visits(q0),
            visits_cloned(done@, visit_models(out@)),
        decreases forest_count(refs_model(queue@)),
    {
        let ghost qm = refs_model(queue@);
        let ghost q_before = queue@;
        proof {
            lemma_refs_model(queue@);
        }
        let node = queue.remove(0);
        let data = node.data.clone();
        let ghost out_old = out@;
        let ghost done_old = done@;
        out.push(Visit { data, size: node.size });
        let ghost rest = qm.subrange(1, qm.len() as int);
        let mut k: usize = 0;
        let deg = node.children.len();
        let ghost queue_mid = queue@;
        proof {
            lemma_kids_model(node.children@);
        }
        while k < deg
            invariant
                0 <= k <= deg,
                deg == node.children@.len(),
                deg == node.model().kids.len(),
                node.wf(),
                queue@.len() == queue_mid.len() + k,
                forall|i: int| 0 <= i < queue_mid.len() ==> queue@[i] == queue_mid[i],
                forall|i: int|
                    0 <= i < k ==> queue@[queue_mid.len() + i] == &node.children@[i],
                forall|i: int| 0 <= i < queue@.len() ==> (#[trigger] queue@[i]).wf(),
            decreases deg - k,
        {
            queue.push(node.child(k));
            k = k + 1;
        }
        proof {
            done@ = done@.push(visit_of(qm[0]));
            lemma_refs_model(queue@);
            lemma_refs_model(q_before);
            lemma_kids_model(node.children@);
            assert(qm == refs_model(q_before));
            assert(qm.len() == q_before.len());
            assert(queue_mid.len() == q_before.len() - 1);
            assert(queue@.len() == queue_mid.len() + node.children@.len());
            assert(refs_model(queue@).len() == rest.len() + node.model().kids.len());
            assert(node == q_before[0]);
            assert forall|i: int|
                0 <= i < rest.len() implies #[trigger] refs_model(queue@)[i] == rest[i] by {
                assert(queue@[i] == queue_mid[i]);
                assert(queue_mid[i] == q_before[i + 1]);
                assert(rest[i] == qm[i + 1]);
                assert(qm[i + 1] == q_before[i + 1].model());
            }
            assert(forall|i: int|
                0 <= i < node.model().kids.len() ==> #[trigger] refs_model(queue@)[
                    rest.len() + i
                ] == node.model().kids[i]);
            assert(refs_model(queue@) =~= rest + node.model().kids);
            assert(node.model() == qm[0]);
            assert(Visit { data, size: node.size }.model().degree == visit_of(qm[0]).degree);
            assert(Visit { data, size: node.size }.model().descendants == visit_of(
                qm[0],
            ).descendants);
            assert(cloned::<T>(visit_of(qm[0]).data, Visit { data, size: node.size }.model().data));
            assert(out@ == out_old.push(Visit { data, size: node.size }));
            assert(done@ == done_old.push(visit_of(qm[0])));
            assert forall|i: int| 0 <= i < done@.len() implies cloned::<T>(
                done@[i].data,
                (#[trigger] visit_models(out@)[i]).data,
            ) && visit_models(out@)[i].degree == done@[i].degree && visit_models(out@)[
                i
            ].descendants == done@[i].descendants by {
                assert(visit_models(out@)[i] == out@[i].model());
                if i < done@.len() - 1 {
                    assert(done@[i] == done_old[i]);
                    assert(out@[i] == out_old[i]);
                    assert(visit_models(out_old)[i] == out_old[i].model());
                } else {
                    assert(done@[i] == visit_of(qm[0]));
                    assert(out@[i] == Visit { data, size: node.size });
                }
            }
            assert(visits_cloned(done@, visit_models(out@)));
            assert(bfs_visits(qm) == seq![visit_of(qm[0])] + bfs_visits(rest + qm[0].kids));
            assert(done@ + bfs_visits(refs_model(queue@)) =~= bfs_visits(q0));
            lemma_forest_count_concat(rest, qm[0].kids);
        }
    }
    proof {
        assert(refs_model(queue@) =~= Seq::<TreeModel<T>>::empty());
        assert(bfs_visits(refs_model(queue@)) =~= Seq::<VisitModel<T>>::empty());
        assert(done@ + bfs_visits(refs_model(queue@)) =~= done@);
    }
    out
}

impl<T: Clone> Node<T> {
    /// Linearizes the subtree rooted here in level order, cloning each
    /// payload.
    pub fn bfs(&self) -> (b: crate::bfs::BfsTree<T>)
        requires
            self.wf(),
        ensures
            visits_cloned(bfs_visits(seq![self.model()]), visit_models(b.visits@)),
            b.size == (Size { degree: 1, descendants: self.size.descendants }),
    {
        let mut roots: Vec<&Node<T>> = Vec::new();
        roots.push(self);
        let ghost rs = roots@;
        let size = Size { degree: 1, descendants: self.size.descendants };
        let visits = linearize_refs(roots);
        proof {
            lemma_refs_model(rs);
            assert(refs_model(rs) =~= seq![self.model()]);
        }
        crate::bfs::BfsTree { visits, size }
    }

    /// Linearizes the children of this node in level order, cloning each
    /// payload.
    pub fn bfs_children(&self) -> (b: crate::bfs::BfsForest<T>)
        requires
            self.wf(),
        ensures
            visits_cloned(bfs_visits(self.model().kids), visit_models(b.visits@)),
            b.size == self.size,
    {
        let mut roots: Vec<&Node<T>> = Vec::new();
        let mut k: usize = 0;
        let deg = self.children.len();
        proof {
            lemma_kids_model(self.children@);
        }
        while k < deg
            invariant
                0 <= k <= deg,
                self.wf(),
                deg == self.children@.len(),
                deg == self.model().kids.len(),
                roots@.len() == k,
                forall|i: int| 0 <= i < k ==> roots@[i] == &self.children@[i],
                forall|i: int| 0 <= i < roots@.len() ==> (#[trigger] roots@[i]).wf(),
            decreases deg - k,
        {
            roots.push(self.child(k));
            k = k + 1;
        }
        let ghost rs = roots@;
        let visits = linearize_refs(roots);
        proof {
            lemma_refs_model(rs);
            lemma_kids_model(self.children@);
            assert(refs_model(rs) =~= self.model().kids);
        }
        crate::bfs::BfsForest { visits, size: self.size }
    }

    /// Clones the subtree rooted here into an independent tree: the copy
    /// has the same shape and, payload by payload, a clone of each datum.
    /// The copy is built in one pass, so its storage is piled.
    pub fn deep_clone(&self) -> (t: crate::tree::Tree<T>)
        requires
            self.wf(),
        ensures
            t.wf(),
            tree_cloned(self.model(), t.model()),
            t.root.uniform(true),
    {
        let ghost m = self.model();
        let b = self.bfs();
        let ghost vm = visit_models(b.visits@);
        proof {
            lemma_bfs_rebuild(seq![m]);
            lemma_stream_valid_cloned(bfs_visits(seq![m]), vm, 1);
            lemma_rebuild_cloned(bfs_visits(seq![m]), vm, 1, 0);
            assert(bfs_visits(seq![m]).len() == forest_count(seq![m]));
            crate::model::lemma_forest_count_ge_len(seq![m]);
        }
        match crate::tree::Tree::from_bfs(b) {
            Ok(t) => t,
            Err(_) => vstd::pervasive::unreached(),
        }
    }

    /// Clones the children of this node into an independent forest, with
    /// piled storage.
    pub fn deep_clone_forest(&self) -> (f: crate::forest::Forest<T>)
        requires
            self.wf(),
        ensures
            f.wf(),
            crate::model::forest_cloned(self.model().kids, f.model()),
            forall|j: int| 0 <= j < f.kids@.len() ==> (#[trigger] f.kids@[j]).uniform(true),
    {
        let ghost q = self.model().kids;
        let b = self.bfs_children();
        let ghost vm = visit_models(b.visits@);
        let ghost r = q.len();
        proof {
            lemma_kids_model(self.children@);
            lemma_bfs_rebuild(q);
            lemma_stream_valid_cloned(bfs_visits(q), vm, r);
        }
        match crate::forest::Forest::from_bfs(b) {
            Ok(f) => {
                proof {
                    lemma_kids_model(f.kids@);
                    assert(f.kids@.len() == f.model().len());
                    assert forall|j: int| 0 <= j < r implies tree_cloned(
                        q[j],
                        f.model()[j],
                    ) by {
                        lemma_rebuild_cloned(bfs_visits(q), vm, r, j);
                        assert(bfs_visits(q).len() == forest_count(q));
                        crate::model::lemma_forest_count_ge_len(q);
                        assert(rebuild_at(bfs_visits(q), r, j) == q[j]);
                    }
                    crate::model::lemma_forest_cloned_intro(q, f.model());
                }
                f
            },
            Err(_) => vstd::pervasive::unreached(),
        }
    }
}

impl<T: Clone> crate::forest::Forest<T> {
    /// Linearizes the forest in level order, cloning each payload.
    pub fn bfs(&self) -> (b: crate::bfs::BfsForest<T>)
        requires
            self.wf(),
        ensures
            visits_cloned(bfs_visits(self.model()), visit_models(b.visits@)),
            b.size == self.size,
    {
        let mut roots: Vec<&Node<T>> = Vec::new();
        let mut k: usize = 0;
        let deg = self.kids.len();
        proof {
            lemma_kids_model(self.kids@);
        }
        while k < deg
            invariant
                0 <= k <= deg,
                self.wf(),
                deg == self.kids@.len(),
                roots@.len() == k,
                forall|i: int| 0 <= i < k ==> roots@[i] == &self.kids@[i],
                forall|i: int| 0 <= i < roots@.len() ==> (#[trigger] roots@[i]).wf(),
            decreases deg - k,
        {
            proof {
                lemma_kids_model(self.kids@);
            }
            roots.push(&self.kids[k]);
            k = k + 1;
        }
        let ghost rs = roots@;
        let visits = linearize_refs(roots);
        proof {
            lemma_refs_model(rs);
            lemma_kids_model(self.kids@);
            assert(refs_model(rs) =~= self.model());
        }
        crate::bfs::BfsForest { visits, size: self.size }
    }
}


impl<T: Clone> Node<T> {
    /// The payloads of the direct children, in order, each one a clone.
    pub fn children(&self) -> (r: Vec<T>)
        requires
            self.wf(),
        ensures
            r@.len() == self.model().kids.len(),
            forall|i: int|
                0 <= i < r@.len() ==> cloned::<T>(self.model().kids[i].data, #[trigger] r@[i]),
    {
        let mut out: Vec<T> = Vec::new();
        let deg = self.children.len();
        proof {
            lemma_kids_model(self.children@);
        }
        let mut k: usize = 0;
        while k < deg
            invariant
                0 <= k <= deg,
                self.wf(),
                deg == self.children@.len(),
                deg == self.model().kids.len(),
                out@.len() == k,
                forall|i: int|
                    0 <= i < k ==> cloned::<T>(
                        self.model().kids[i].data,
                        #[trigger] out@[i],
                    ),
            decreases deg - k,
        {
            proof {
                lemma_kids_model(self.children@);
            }
            out.push(self.child(k).data.clone());
            k = k + 1;
        }
        out
    }

    /// The payloads of the whole subtree in level order, this node's
    /// first, each one a clone.
    pub fn descendants(&self) -> (r: Vec<T>)
        requires
            self.wf(),
        ensures
            r@.len() == bfs_visits(seq![self.model()]).len(),
            forall|i: int|
                0 <= i < r@.len() ==> cloned::<T>(
                    bfs_visits(seq![self.model()])[i].data,
                    #[trigger] r@[i],
                ),
    {
        let mut roots: Vec<&Node<T>> = Vec::new();
        roots.push(self);
        let ghost rs = roots@;
        let mut visits = linearize_refs(roots);
        proof {
            lemma_refs_model(rs);
            assert(refs_model(rs) =~= seq![self.model()]);
        }
        let ghost vm = visit_models(visits@);
        let ghost visits0 = visits@;
        let mut out: Vec<T> = Vec::new();
        let m = visits.len();
        let mut k: usize = 0;
        while k < m
            invariant
                0 <= k <= m,
                m == visits0.len(),
                visits@ =~= visits0.subrange(k as int, m as int),
                vm == visit_models(visits0),
                visits_cloned(bfs_visits(seq![self.model()]), vm),
                out@.len() == k,
                forall|i: int|
                    0 <= i < k ==> (#[trigger] out@[i]) == visits0[i].data,
            decreases m - k,
        {
            proof {
                assert(visits@[0] == visits0[k as int]);
            }
            let v = visits.remove(0);
            out.push(v.data);
            k = k + 1;
            proof {
                assert(visits@ =~= visits0.subrange(k as int, m as int));
            }
        }
        proof {
            assert forall|i: int|
                0 <= i < out@.len() implies cloned::<T>(
                bfs_visits(seq![self.model()])[i].data,
                #[trigger] out@[i],
            ) by {
                assert(vm[i] == visits0[i].model());
                assert(cloned::<T>(bfs_visits(seq![self.model()])[i].data, vm[i].data));
            }
        }
        out
    }
}

/// [`opt_count_sum`] of all-`None` slots is zero.
proof fn lemma_opt_sum_none<T>(s: Seq<Option<Node<T>>>)
    requires
        forall|j: int| 0 <= j < s.len() ==> s[j] is None,
    ensures
        opt_count_sum(s) == 0,
    decreases s.len(),
{
    if s.len() > 0 {
        lemma_opt_sum_none(s.subrange(1, s.len() as int));
    }
}

} // verus!
