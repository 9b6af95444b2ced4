//! Shared-ownership layer: reference-counted handles over nodes kept in
//! an explicit store.
//!
//! Aliased mutable access cannot be checked statically, so the shared
//! layer trades the intrusive pointers of the exclusive API for an
//! [`RcStore`]: a slot per node, child lists and parent links as slot
//! indices, and a strong and a weak count per slot.  A handle is a slot
//! index; every operation takes the store, whose single mutable borrow
//! plays the role of the dynamic borrow check.  A node dies when its
//! strong count reaches zero: its children are detached and lose their
//! structural count in turn (iteratively, never by unbounded recursion),
//! its payload is dropped, and only weak handles remain to observe the
//! death.

use vstd::prelude::*;

use crate::model::{forest_count, tree_count, TreeModel};
use crate::node::{kids_model, lemma_kids_model, Node};
use crate::tree::Tree;

verus! {

/// One slot of the store: a node of the shared graph.
pub struct RcSlot<T> {
    /// The payload; `None` once the node has died.
    pub data: Option<T>,
    /// Slot indices of the children, in order.
    pub kids: Vec<usize>,
    /// Slot index of the parent, if the node is attached.
    pub parent: Option<usize>,
    /// Owning interest: one for the structural owner (parent or first
    /// handle) plus one per additional handle.
    pub strong: usize,
    /// Non-owning interest: one per weak handle.
    pub weak: usize,
    /// Cached count of the nodes strictly below this one.
    pub desc: usize,
    /// Storage strategy the node was built with.
    pub piled: bool,
}

/// Node store of the shared-ownership layer.
pub struct RcStore<T> {
    pub slots: Vec<RcSlot<T>>,
    /// Depth of every live slot, for termination of upward walks.
    pub depth: Ghost<Map<int, nat>>,
}

/// Sum over a child list of one plus each child's descendant count.
pub open spec fn kids_sum<T>(s: Seq<RcSlot<T>>, ks: Seq<usize>) -> nat
    decreases ks.len(),
{
    if ks.len() == 0 {
        0
    } else {
        (1 + s[ks[0] as int].desc + kids_sum(s, ks.subrange(1, ks.len() as int))) as nat
    }
}

/// Conditions on a live slot.
pub open spec fn slot_ok<T>(s: Seq<RcSlot<T>>, d: Map<int, nat>, i: int) -> bool {
    let sl = s[i];
    &&& sl.data is Some
    &&& sl.desc == kids_sum(s, sl.kids@)
    &&& sl.kids@.no_duplicates()
    &&& forall|t: int|
        0 <= t < sl.kids@.len() ==> (#[trigger] sl.kids@[t]) < s.len() && s[sl.kids@[t] as int].strong
            > 0 && d[sl.kids@[t] as int] == d[i] + 1
    &&& (sl.parent is Some ==> sl.parent.unwrap() < s.len() && s[sl.parent.unwrap() as int].strong
        > 0 && s[sl.parent.unwrap() as int].kids@.contains(i as usize) && d[i]
        == d[sl.parent.unwrap() as int] + 1)
}

/// Conditions on a dead slot: unlinked, emptied, only weak interest left.
pub open spec fn slot_dead<T>(s: Seq<RcSlot<T>>, i: int) -> bool {
    let sl = s[i];
    &&& sl.data is None
    &&& sl.kids@.len() == 0
    &&& sl.parent is None
    &&& sl.desc == 0
}

/// Every listed child points back at the slot that lists it.
pub open spec fn backptrs_ok<T>(s: Seq<RcSlot<T>>) -> bool {
    forall|j: int, t: int|
        0 <= j < s.len() && 0 <= t < s[j].kids@.len() ==> 0 <= (#[trigger] s[j].kids@[t])
            < s.len() && s[s[j].kids@[t] as int].parent == Some(j as usize)
}

/// Partial back pointers: the children of slot `p` from position `u` on
/// have not been pointed at it yet.
pub open spec fn backptrs_except<T>(s: Seq<RcSlot<T>>, p: int, u: int) -> bool {
    forall|j: int, t: int|
        0 <= j < s.len() && 0 <= t < s[j].kids@.len() && !(j == p && t >= u) ==> 0 <= (
        #[trigger] s[j].kids@[t]) < s.len() && s[s[j].kids@[t] as int].parent == Some(
            j as usize,
        )
}

/// Every slot is either properly alive or properly dead.
pub open spec fn store_slots_ok<T>(s: Seq<RcSlot<T>>, d: Map<int, nat>) -> bool {
    forall|i: int|
        0 <= i < s.len() ==> (if (#[trigger] s[i]).strong > 0 {
            slot_ok(s, d, i)
        } else {
            slot_dead(s, i)
        })
}

/// Well-formedness of the whole store.
pub open spec fn store_wf<T>(s: Seq<RcSlot<T>>, d: Map<int, nat>) -> bool {
    &&& store_slots_ok(s, d)
    &&& backptrs_ok(s)
}

/// A zombie slot: a node whose last owner is gone but whose children
/// have not all been detached yet.
pub open spec fn slot_zombie<T>(s: Seq<RcSlot<T>>, d: Map<int, nat>, i: int) -> bool {
    let sl = s[i];
    &&& sl.strong == 0
    &&& sl.data is Some
    &&& sl.parent is None
    &&& sl.desc == kids_sum(s, sl.kids@)
    &&& sl.kids@.no_duplicates()
    &&& forall|t: int|
        0 <= t < sl.kids@.len() ==> (#[trigger] sl.kids@[t]) < s.len() && s[sl.kids@[t] as int].strong
            > 0 && d[sl.kids@[t] as int] == d[i] + 1
}

/// Like [`slot_ok`] but the parent may be a dying slot (one whose
/// owners are gone but whose payload has not been dropped yet).
pub open spec fn slot_ok_z<T>(s: Seq<RcSlot<T>>, d: Map<int, nat>, i: int) -> bool {
    let sl = s[i];
    &&& sl.data is Some
    &&& sl.desc == kids_sum(s, sl.kids@)
    &&& sl.kids@.no_duplicates()
    &&& forall|t: int|
        0 <= t < sl.kids@.len() ==> (#[trigger] sl.kids@[t]) < s.len() && s[sl.kids@[t] as int].strong
            > 0 && d[sl.kids@[t] as int] == d[i] + 1
    &&& (sl.parent is Some ==> sl.parent.unwrap() < s.len() && s[sl.parent.unwrap() as int].data
        is Some && s[sl.parent.unwrap() as int].kids@.contains(i as usize) && d[i]
        == d[sl.parent.unwrap() as int] + 1)
}

/// Well-formedness while some slots are dying: a slot with no owners but
/// a payload still present is a dying slot, already unlinked from any
/// parent.
pub open spec fn store_wf_z<T>(s: Seq<RcSlot<T>>, d: Map<int, nat>) -> bool {
    &&& forall|i: int|
        0 <= i < s.len() ==> (if (#[trigger] s[i]).strong > 0 {
            slot_ok_z(s, d, i)
        } else if s[i].data is Some {
            slot_zombie(s, d, i)
        } else {
            slot_dead(s, i)
        })
    &&& backptrs_ok(s)
}

/// The work left in a dying worklist: each entry costs its descendant
/// count twice plus one step.
pub open spec fn zmeasure<T>(s: Seq<RcSlot<T>>, ws: Seq<usize>) -> nat
    decreases ws.len(),
{
    if ws.len() == 0 {
        0
    } else {
        (2 * s[ws[0] as int].desc + 1 + zmeasure(s, ws.subrange(1, ws.len() as int))) as nat
    }
}

/// [`zmeasure`] under pointwise-equal descendant counts.
proof fn lemma_zmeasure_congruence<T>(s1: Seq<RcSlot<T>>, s2: Seq<RcSlot<T>>, ws: Seq<usize>)
    requires
        forall|t: int|
            0 <= t < ws.len() ==> s1[(#[trigger] ws[t]) as int].desc == s2[ws[t] as int].desc,
    ensures
        zmeasure(s1, ws) == zmeasure(s2, ws),
    decreases ws.len(),
{
    if ws.len() > 0 {
        let rest = ws.subrange(1, ws.len() as int);
        assert(forall|t: int| 0 <= t < rest.len() ==> rest[t] == ws[t + 1]);
        lemma_zmeasure_congruence(s1, s2, rest);
    }
}

/// [`zmeasure`] of a worklist with one more entry.
proof fn lemma_zmeasure_push<T>(s: Seq<RcSlot<T>>, ws: Seq<usize>, k: usize)
    ensures
        zmeasure(s, ws.push(k)) == zmeasure(s, ws) + 2 * s[k as int].desc + 1,
    decreases ws.len(),
{
    if ws.len() == 0 {
        assert(ws.push(k).subrange(1, 1) =~= Seq::<usize>::empty());
        assert(ws.push(k)[0] == k);
        assert(zmeasure(s, Seq::<usize>::empty()) == 0);
        assert(zmeasure(s, ws) == 0);
        assert(zmeasure(s, ws.push(k)) == 2 * s[k as int].desc + 1 + zmeasure(
            s,
            ws.push(k).subrange(1, 1),
        ));
    } else {
        let rest = ws.subrange(1, ws.len() as int);
        lemma_zmeasure_push(s, rest, k);
        assert(ws.push(k).subrange(1, ws.len() as int + 1) =~= rest.push(k));
        assert(ws.push(k)[0] == ws[0]);
    }
}

/// Sums agree on two stores whose listed slots have the same descendant
/// counts.
proof fn lemma_kids_sum_congruence<T>(
    s1: Seq<RcSlot<T>>,
    s2: Seq<RcSlot<T>>,
    ks: Seq<usize>,
)
    requires
        forall|t: int|
            0 <= t < ks.len() ==> s1[(#[trigger] ks[t]) as int].desc == s2[ks[t] as int].desc,
    ensures
        kids_sum(s1, ks) == kids_sum(s2, ks),
    decreases ks.len(),
{
    if ks.len() > 0 {
        let rest = ks.subrange(1, ks.len() as int);
        assert(forall|t: int| 0 <= t < rest.len() ==> rest[t] == ks[t + 1]);
        lemma_kids_sum_congruence(s1, s2, rest);
    }
}

/// Appending a child adds one plus its descendant count to the sum.
proof fn lemma_kids_sum_push<T>(s: Seq<RcSlot<T>>, ks: Seq<usize>, k: usize)
    ensures
        kids_sum(s, ks.push(k)) == kids_sum(s, ks) + 1 + s[k as int].desc,
    decreases ks.len(),
{
    if ks.len() == 0 {
        assert(ks.push(k).subrange(1, 1) =~= Seq::<usize>::empty());
        assert(ks.push(k)[0] == k);
        assert(kids_sum(s, Seq::<usize>::empty()) == 0);
        assert(kids_sum(s, ks) == 0);
        assert(kids_sum(s, ks.push(k)) == 1 + s[k as int].desc + kids_sum(
            s,
            ks.push(k).subrange(1, 1),
        ));
    } else {
        let rest = ks.subrange(1, ks.len() as int);
        lemma_kids_sum_push(s, rest, k);
        assert(ks.push(k).subrange(1, ks.len() as int + 1) =~= rest.push(k));
        assert(ks.push(k)[0] == ks[0]);
    }
}

/// Removing the child at position `t` subtracts one plus its descendant
/// count from the sum.
proof fn lemma_kids_sum_remove<T>(s: Seq<RcSlot<T>>, ks: Seq<usize>, t: int)
    requires
        0 <= t < ks.len(),
    ensures
        kids_sum(s, ks.remove(t)) + 1 + s[ks[t] as int].desc == kids_sum(s, ks),
    decreases ks.len(),
{
    if t == 0 {
        assert(ks.remove(0) =~= ks.subrange(1, ks.len() as int));
    } else {
        let rest = ks.subrange(1, ks.len() as int);
        lemma_kids_sum_remove(s, rest, t - 1);
        assert(ks.remove(t).subrange(1, ks.len() - 1) =~= rest.remove(t - 1));
        assert(ks.remove(t)[0] == ks[0]);
        assert(rest[t - 1] == ks[t]);
    }
}

/// The slots after the first `t` entries of `ks` have each gained one
/// strong owner.
pub open spec fn bumped<T>(s: Seq<RcSlot<T>>, ks: Seq<usize>, t: int) -> Seq<RcSlot<T>>
    decreases t,
{
    if t <= 0 {
        s
    } else {
        let b = bumped(s, ks, t - 1);
        b.update(
            ks[t - 1] as int,
            RcSlot { strong: (b[ks[t - 1] as int].strong + 1) as usize, ..b[ks[t - 1] as int] },
        )
    }
}

/// What [`bumped`] does, slot by slot.
proof fn lemma_bumped_pointwise<T>(s: Seq<RcSlot<T>>, ks: Seq<usize>, t: int)
    requires
        0 <= t <= ks.len(),
        ks.no_duplicates(),
        forall|u: int| 0 <= u < ks.len() ==> (#[trigger] ks[u]) < s.len(),
        forall|u: int| 0 <= u < ks.len() ==> s[(#[trigger] ks[u]) as int].strong < usize::MAX,
    ensures
        bumped(s, ks, t).len() == s.len(),
        forall|j: int|
            0 <= j < s.len() ==> (#[trigger] bumped(s, ks, t)[j]).kids == s[j].kids && bumped(
                s,
                ks,
                t,
            )[j].data == s[j].data && bumped(s, ks, t)[j].parent == s[j].parent && bumped(
                s,
                ks,
                t,
            )[j].weak == s[j].weak && bumped(s, ks, t)[j].desc == s[j].desc,
        forall|u: int|
            0 <= u < t ==> bumped(s, ks, t)[(#[trigger] ks[u]) as int].strong == s[ks[u] as int].strong
                + 1,
        forall|j: int|
            0 <= j < s.len() && !ks.subrange(0, t).contains(j as usize) ==> (
            #[trigger] bumped(s, ks, t)[j]).strong == s[j].strong,
    decreases t,
{
    if t > 0 {
        lemma_bumped_pointwise(s, ks, t - 1);
        assert(forall|j: int|
            0 <= j < s.len() && !ks.subrange(0, t - 1).contains(j as usize) ==> (
            #[trigger] bumped(s, ks, t - 1)[j]).strong == s[j].strong);
        assert(!ks.subrange(0, t - 1).contains(ks[t - 1])) by {
            if ks.subrange(0, t - 1).contains(ks[t - 1]) {
                let u = choose|u: int|
                    0 <= u < t - 1 && #[trigger] ks.subrange(0, t - 1)[u] == ks[t - 1];
                assert(ks[u] == ks[t - 1]);
            }
        }
        assert forall|j: int|
            0 <= j < s.len() && !ks.subrange(0, t).contains(j as usize) implies (
        #[trigger] bumped(s, ks, t)[j]).strong == s[j].strong by {
            assert(!ks.subrange(0, t - 1).contains(j as usize)) by {
                if ks.subrange(0, t - 1).contains(j as usize) {
                    let u = choose|u: int|
                        0 <= u < t - 1 && #[trigger] ks.subrange(0, t - 1)[u] == j as usize;
                    assert(ks.subrange(0, t)[u] == j as usize);
                }
            }
            assert(j != ks[t - 1] as int) by {
                if j == ks[t - 1] as int {
                    assert(ks.subrange(0, t)[t - 1] == j as usize);
                }
            }
        }
        assert forall|u: int|
            0 <= u < t implies bumped(s, ks, t)[(#[trigger] ks[u]) as int].strong == s[ks[u] as int].strong
            + 1 by {
            if u < t - 1 {
                assert(ks[u] != ks[t - 1]);
            } else {
                assert(!ks.subrange(0, t - 1).contains(ks[t - 1]));
            }
        }
    } else {
        assert(ks.subrange(0, 0) =~= Seq::<usize>::empty());
    }
}

/// Reference-counting handle to a scattered node.
pub struct ScatteredRcNode<T> {
    pub index: usize,
    pub marker: core::marker::PhantomData<T>,
}

/// Reference-counting handle to a piled node.
pub struct PiledRcNode<T> {
    pub index: usize,
    pub marker: core::marker::PhantomData<T>,
}

/// Reference-counting handle to a node of either storage strategy.
pub enum RcNode<T> {
    Scattered(ScatteredRcNode<T>),
    Piled(PiledRcNode<T>),
}

/// Weak handle to a scattered node.
pub struct ScatteredWeakNode<T> {
    pub index: usize,
    pub marker: core::marker::PhantomData<T>,
}

/// Weak handle to a piled node.
pub struct PiledWeakNode<T> {
    pub index: usize,
    pub marker: core::marker::PhantomData<T>,
}

/// Weak handle to a node of either storage strategy.
pub enum WeakNode<T> {
    Scattered(ScatteredWeakNode<T>),
    Piled(PiledWeakNode<T>),
}

impl<T> RcNode<T> {
    /// The slot index this handle designates.
    pub open spec fn idx(&self) -> int {
        match *self {
            RcNode::Scattered(ref h) => h.index as int,
            RcNode::Piled(ref h) => h.index as int,
        }
    }

    /// The slot index, executably.
    pub fn index(&self) -> (r: usize)
        ensures
            r as int == self.idx(),
    {
        match *self {
            RcNode::Scattered(ref h) => h.index,
            RcNode::Piled(ref h) => h.index,
        }
    }

    /// Makes a handle to slot `i` with the slot's storage flag.
    fn make(i: usize, piled: bool) -> (r: RcNode<T>)
        ensures
            r.idx() == i as int,
            r is Piled <==> piled,
    {
        if piled {
            RcNode::Piled(PiledRcNode { index: i, marker: core::marker::PhantomData })
        } else {
            RcNode::Scattered(ScatteredRcNode { index: i, marker: core::marker::PhantomData })
        }
    }
}

impl<T> WeakNode<T> {
    /// The slot index this weak handle designates.
    pub open spec fn idx(&self) -> int {
        match *self {
            WeakNode::Scattered(ref h) => h.index as int,
            WeakNode::Piled(ref h) => h.index as int,
        }
    }
}

/// A handle is valid for a store while its slot index is in range and
/// the slot is alive.
pub open spec fn handle_ok<T>(st: RcStore<T>, h: RcNode<T>) -> bool {
    0 <= h.idx() < st.slots@.len() && st.slots@[h.idx()].strong > 0
}

impl<T> RcStore<T> {
    /// Well-formedness of the store.
    pub open spec fn wf(&self) -> bool {
        store_wf(self.slots@, self.depth@)
    }

    /// Makes an empty store.
    pub fn new() -> (st: RcStore<T>)
        ensures
            st.wf(),
            st.slots@.len() == 0,
    {
        RcStore { slots: Vec::new(), depth: Ghost(Map::empty()) }
    }

    /// Points the parentless live slot `k` at the live slot `p`, which
    /// already lists it among its children.
    #[verifier::rlimit(100)]
    #[verifier::spinoff_prover]
    fn patch_parent_at(&mut self, k: usize, p: usize, u: usize)
        requires
            store_slots_ok(old(self).slots@, old(self).depth@),
            backptrs_except(old(self).slots@, p as int, u as int),
            k < old(self).slots@.len(),
            p < old(self).slots@.len(),
            u < old(self).slots@[p as int].kids@.len(),
            old(self).slots@[p as int].kids@[u as int] == k,
            old(self).slots@[k as int].strong > 0,
            old(self).slots@[p as int].strong > 0,
            old(self).depth@[k as int] == old(self).depth@[p as int] + 1,
            old(self).slots@[k as int].parent is None,
        ensures
            store_slots_ok(final(self).slots@, final(self).depth@),
            backptrs_except(final(self).slots@, p as int, u as int + 1),
            final(self).depth@ == old(self).depth@,
            final(self).slots@ == old(self).slots@.update(
                k as int,
                RcSlot { parent: Some(p), ..old(self).slots@[k as int] },
            ),
    {
        proof {
            vstd::std_specs::vec::axiom_spec_len(&self.slots);
            assert(self.slots@[p as int].kids@.contains(k)) by {
                assert(self.slots@[p as int].kids@[u as int] == k);
            }
            lemma_store_wf_patch_parent(self.slots@, self.depth@, k as int, p as int);
        }
        let slot = vstd::std_specs::vec::vec_index_mut(&mut self.slots, k);
        slot.parent = Some(p);
        proof {
            let s1 = old(self).slots@;
            let s2 = self.slots@;
            assert(s2 =~= s1.update(
                k as int,
                RcSlot { parent: Some(p), ..s1[k as int] },
            ));
            assert forall|j: int, t: int|
                0 <= j < s2.len() && 0 <= t < s2[j].kids@.len() && !(j == p && t >= u
                    + 1) implies 0 <= (#[trigger] s2[j].kids@[t]) < s2.len()
                && s2[s2[j].kids@[t] as int].parent == Some(j as usize) by {
                assert(s2[j].kids@ == s1[j].kids@);
                if j == p && t == u {
                    assert(s2[s2[j].kids@[t] as int].parent == Some(p));
                } else {
                    assert(!(j == p && t >= u));
                    assert(s1[s1[j].kids@[t] as int].parent == Some(j as usize));
                    assert(s1[j].kids@[t] != k) by {
                        if s1[j].kids@[t] == k {
                            assert(s1[k as int].parent == Some(j as usize));
                        }
                    }
                }
            }
        }
    }

    /// Flattens an owned node into fresh slots, children first, and
    /// returns the root's slot index.  Every new slot starts with one
    /// strong owner and no weak interest; the root is parentless.
    #[verifier::rlimit(100)]
    #[verifier::spinoff_prover]
    fn adopt_node(&mut self, node: Node<T>, Ghost(dep): Ghost<nat>) -> (i: usize)
        requires
            old(self).wf(),
            node.wf(),
            old(self).slots@.len() + tree_count(node.model()) <= usize::MAX,
        ensures
            final(self).wf(),
            final(self).slots@.len() == old(self).slots@.len() + tree_count(node.model()),
            i as int == final(self).slots@.len() - 1,
            forall|j: int|
                0 <= j < old(self).slots@.len() ==> final(self).slots@[j]
                    == old(self).slots@[j],
            forall|j: int|
                old(self).slots@.len() <= j < final(self).slots@.len()
                    ==> (#[trigger] final(self).slots@[j]).strong == 1
                    && final(self).slots@[j].weak == 0,
            final(self).slots@[i as int].data == Some(node.data),
            final(self).slots@[i as int].parent is None,
            final(self).slots@[i as int].desc == node.size.descendants,
            final(self).slots@[i as int].piled == node.piled,
            final(self).slots@[i as int].kids@.len() == node.model().kids.len(),
            forall|t: int|
                0 <= t < node.model().kids.len() ==> final(self).slots@[(
                #[trigger] final(self).slots@[i as int].kids@[t]) as int].data == Some(
                    node.model().kids[t].data,
                )
                    && final(self).slots@[final(self).slots@[i as int].kids@[t] as int].desc
                    == tree_count(node.model().kids[t]) - 1,
            final(self).depth@[i as int] == dep,
            forall|k: int|
                !(old(self).slots@.len() <= k < final(self).slots@.len())
                    ==> final(self).depth@[k] == old(self).depth@[k],
        decreases tree_count(node.model()),
    {
        let ghost m = node.model();
        let Node { data, children, size, piled } = node;
        let mut children = children;
        let mut kid_ids: Vec<usize> = Vec::new();
        let ghost km = kids_model(children@);
        proof {
            lemma_kids_model(children@);
            assert(km.subrange(0, 0) =~= Seq::<TreeModel<T>>::empty());
            assert(km.subrange(0, km.len() as int) =~= km);
            assert(kids_sum(self.slots@, kid_ids@) == 0);
        }
        let deg = children.len();
        let mut t: usize = 0;
        while t < deg
            invariant
                0 <= t <= deg,
                self.wf(),
                children@.len() == deg - t,
                km.len() == deg,
                forall|u: int| 0 <= u < children@.len() ==> (#[trigger] children@[u]).wf(),
                forall|u: int|
                    0 <= u < children@.len() ==> (#[trigger] children@[u]).model() == km[u
                        + t],
                kid_ids@.len() == t,
                m == node.model(),
                m.kids == km,
                tree_count(m) == 1 + forest_count(km),
                self.slots@.len() == old(self).slots@.len() + forest_count(
                    km.subrange(0, t as int),
                ),
                self.slots@.len() + 1 + forest_count(km.subrange(t as int, deg as int))
                    <= usize::MAX,
                forall|j: int|
                    0 <= j < old(self).slots@.len() ==> self.slots@[j] == old(self).slots@[j],
                self.slots@.len() >= old(self).slots@.len() + t,
                forall|u: int|
                    0 <= u < t ==> (#[trigger] kid_ids@[u]) < self.slots@.len()
                        && self.slots@[kid_ids@[u] as int].strong == 1
                        && self.slots@[kid_ids@[u] as int].parent is None
                        && self.depth@[kid_ids@[u] as int] == dep + 1
                        && old(self).slots@.len() <= kid_ids@[u],
                forall|u: int, v: int|
                    0 <= u < v < t ==> (#[trigger] kid_ids@[u]) < (#[trigger] kid_ids@[v]),
                forall|u: int|
                    0 <= u < t ==> self.slots@[(#[trigger] kid_ids@[u]) as int].data == Some(
                        km[u].data,
                    ) && self.slots@[kid_ids@[u] as int].desc == tree_count(km[u]) - 1,
                kids_sum(self.slots@, kid_ids@) == forest_count(km.subrange(0, t as int)),
                forall|j: int|
                    old(self).slots@.len() <= j < self.slots@.len()
                        ==> (#[trigger] self.slots@[j]).strong == 1 && self.slots@[j].weak
                        == 0,
                forall|k: int|
                    !(old(self).slots@.len() <= k < self.slots@.len()) ==> self.depth@[k]
                        == old(self).depth@[k],
            decreases deg - t,
        {
            let ghost slots_before = self.slots@;
            let ghost kid_ids_before = kid_ids@;
            proof {
                assert(km.subrange(t as int, deg as int)[0] == km[t as int]);
                assert(km.subrange(t as int, deg as int).subrange(
                    1,
                    (deg - t) as int,
                ) =~= km.subrange(t + 1, deg as int));
                crate::model::lemma_forest_count_concat(
                    seq![km[t as int]],
                    km.subrange(t + 1, deg as int),
                );
                assert(seq![km[t as int]] + km.subrange(t + 1, deg as int) =~= km.subrange(
                    t as int,
                    deg as int,
                ));
                assert(forest_count(seq![km[t as int]]) == tree_count(km[t as int])
                    + forest_count(seq![km[t as int]].subrange(1, 1)));
                assert(seq![km[t as int]].subrange(1, 1) =~= Seq::<TreeModel<T>>::empty());
                crate::model::lemma_forest_count_member(km, t as int);
                assert(tree_count(km[t as int]) <= forest_count(km));
            }
            let child = children.remove(0);
            let ghost cm = child.model();
            let ci = self.adopt_node(child, Ghost(dep + 1));
            kid_ids.push(ci);
            proof {
                lemma_kids_sum_push(self.slots@, kid_ids_before, ci);
                lemma_kids_sum_congruence(slots_before, self.slots@, kid_ids_before);
                assert(tree_count(cm) == 1 + self.slots@[ci as int].desc);
                crate::model::lemma_forest_count_push(
                    km.subrange(0, t as int),
                    km[t as int],
                );
                assert(km.subrange(0, t as int).push(km[t as int]) =~= km.subrange(
                    0,
                    t + 1,
                ));
            }
            t = t + 1;
        }
        // The children exist; now the node itself.
        let i = self.slots.len();
        let ghost slots_mid = self.slots@;
        let ghost kid_seq = kid_ids@;
        proof {
            assert forall|u: int, v: int|
                0 <= u < kid_seq.len() && 0 <= v < kid_seq.len() && u != v implies kid_seq[u]
                != kid_seq[v] by {
                if u < v {
                    assert(kid_seq[u] < kid_seq[v]);
                } else {
                    assert(kid_seq[v] < kid_seq[u]);
                }
            }
            assert(kid_seq.no_duplicates());
        }
        let new_slot = RcSlot {
            data: Some(data),
            kids: kid_ids,
            parent: None,
            strong: 1,
            weak: 0,
            desc: size.descendants,
            piled,
        };
        proof {
            assert(km.subrange(0, deg as int) =~= km);
            lemma_kids_sum_congruence(slots_mid, slots_mid.push(new_slot), kid_seq);
            lemma_store_wf_append(slots_mid, self.depth@, new_slot, dep);
            self.depth@ = self.depth@.insert(i as int, dep);
        }
        self.slots.push(new_slot);
        // Finally point every child at the node.
        let mut u: usize = 0;
        while u < deg
            invariant
                0 <= u <= deg,
                i as int == self.slots@.len() - 1,
                self.slots@.len() == slots_mid.len() + 1,
                store_slots_ok(self.slots@, self.depth@),
                backptrs_except(self.slots@, i as int, u as int),
                kid_seq.len() == deg,
                self.slots@[i as int].kids@ == kid_seq,
                self.slots@[i as int].strong == 1,
                self.slots@[i as int].weak == 0,
                self.slots@[i as int].data == Some(data),
                self.slots@[i as int].parent is None,
                self.slots@[i as int].desc == size.descendants,
                self.slots@[i as int].piled == piled,
                self.depth@[i as int] == dep,
                forall|v: int|
                    0 <= v < deg ==> (#[trigger] kid_seq[v]) < i && self.slots@[kid_seq[v] as int].strong
                        == 1 && self.depth@[kid_seq[v] as int] == dep + 1
                        && old(self).slots@.len() <= kid_seq[v],
                forall|v: int|
                    0 <= v < deg ==> self.slots@[(#[trigger] kid_seq[v]) as int].data == Some(
                        km[v].data,
                    ) && self.slots@[kid_seq[v] as int].desc == tree_count(km[v]) - 1,
                km == m.kids,
                deg == km.len(),
                kid_seq.no_duplicates(),
                forall|v: int|
                    0 <= v < deg ==> self.slots@[(#[trigger] kid_seq[v]) as int].parent == (
                    if v < u {
                        Some(i)
                    } else {
                        None
                    }),
                forall|j: int|
                    0 <= j < old(self).slots@.len() ==> self.slots@[j] == old(self).slots@[j],
                forall|j: int|
                    old(self).slots@.len() <= j < self.slots@.len()
                        ==> (#[trigger] self.slots@[j]).strong == 1 && self.slots@[j].weak
                        == 0,
                forall|k: int|
                    !(old(self).slots@.len() <= k < self.slots@.len()) ==> self.depth@[k]
                        == old(self).depth@[k],
            decreases deg - u,
        {
            let k = self.slots[i].kids[u];
            let ghost pre = self.slots@;
            proof {
                assert(k == kid_seq[u as int]);
                assert(self.slots@[i as int].kids@.contains(kid_seq[u as int])) by {
                    assert(self.slots@[i as int].kids@[u as int] == kid_seq[u as int]);
                }
                assert(pre[k as int].parent is None);
            }
            self.patch_parent_at(k, i, u);
            proof {
                assert(self.slots@ == pre.update(
                    k as int,
                    RcSlot { parent: Some(i), ..pre[k as int] },
                ));
                assert forall|v: int|
                    0 <= v < deg implies self.slots@[(#[trigger] kid_seq[v]) as int].parent
                    == (if v < u + 1 {
                    Some(i)
                } else {
                    None
                }) by {
                    if kid_seq[v] == k {
                        assert(v == u as int);
                    } else {
                        assert(self.slots@[kid_seq[v] as int] == pre[kid_seq[v] as int]);
                    }
                }
            }
            u = u + 1;
        }
        proof {
            assert(backptrs_ok(self.slots@)) by {
                assert forall|j: int, t: int|
                    0 <= j < self.slots@.len() && 0 <= t < self.slots@[j].kids@.len() implies 0
                    <= (#[trigger] self.slots@[j].kids@[t]) < self.slots@.len()
                    && self.slots@[self.slots@[j].kids@[t] as int].parent == Some(
                    j as usize,
                ) by {
                    assert(!(j == i as int && t >= deg));
                }
            }
        }
        i
    }
}

/// Appending a fresh root slot keeps the store well formed.
proof fn lemma_store_wf_append<T>(s: Seq<RcSlot<T>>, d: Map<int, nat>, sl: RcSlot<T>, dep: nat)
    requires
        store_wf(s, d),
        sl.strong > 0,
        sl.data is Some,
        sl.parent is None,
        sl.kids@.no_duplicates(),
        sl.desc == kids_sum(s.push(sl), sl.kids@),
        forall|t: int|
            0 <= t < sl.kids@.len() ==> (#[trigger] sl.kids@[t]) < s.len() && s[sl.kids@[t] as int].strong
                > 0 && d.insert(s.len() as int, dep)[sl.kids@[t] as int] == dep + 1,
    ensures
        store_slots_ok(s.push(sl), d.insert(s.len() as int, dep)),
        backptrs_except(s.push(sl), s.len() as int, 0),
{
    let s2 = s.push(sl);
    let d2 = d.insert(s.len() as int, dep);
    assert forall|i: int| 0 <= i < s2.len() implies (if (#[trigger] s2[i]).strong > 0 {
        slot_ok(s2, d2, i)
    } else {
        slot_dead(s2, i)
    }) by {
        if i < s.len() {
            assert(s2[i] == s[i]);
            if s[i].strong > 0 {
                assert(slot_ok(s, d, i));
                lemma_kids_sum_congruence(s, s2, s[i].kids@);
                assert forall|t: int| 0 <= t < s2[i].kids@.len() implies (
                #[trigger] s2[i].kids@[t]) < s2.len() && s2[s2[i].kids@[t] as int].strong > 0
                    && d2[s2[i].kids@[t] as int] == d2[i] + 1 by {
                    assert(s[i].kids@[t] < s.len());
                }
            }
        } else {
            assert(s2[i] == sl);
        }
    }
}

/// A slot stays well formed when the store keeps every slot's shape and
/// only other slots' parent links change.
proof fn lemma_slot_ok_same_shape<T>(
    s1: Seq<RcSlot<T>>,
    s2: Seq<RcSlot<T>>,
    d: Map<int, nat>,
    i: int,
)
    requires
        slot_ok(s1, d, i),
        s1.len() == s2.len(),
        0 <= i < s1.len(),
        forall|x: int|
            0 <= x < s1.len() ==> (#[trigger] s2[x]).strong == s1[x].strong && s2[x].kids
                == s1[x].kids && s2[x].desc == s1[x].desc && s2[x].data == s1[x].data,
        s2[i].parent == s1[i].parent,
    ensures
        slot_ok(s2, d, i),
{
    lemma_kids_sum_congruence(s1, s2, s1[i].kids@);
}

/// The patched slot itself stays well formed.
#[verifier::spinoff_prover]
proof fn lemma_slot_ok_patched<T>(
    s: Seq<RcSlot<T>>,
    s2: Seq<RcSlot<T>>,
    d: Map<int, nat>,
    k: int,
    p: int,
)
    requires
        s.len() <= usize::MAX,
        0 <= k < s.len(),
        0 <= p < s.len(),
        slot_ok(s, d, k),
        s2 == s.update(k, RcSlot { parent: Some(p as usize), ..s[k] }),
        s[p].strong > 0,
        s[p].kids@.contains(k as usize),
        d[k] == d[p] + 1,
    ensures
        slot_ok(s2, d, k),
{
    lemma_kids_sum_congruence(s, s2, s[k].kids@);
    assert(s2[k].kids@ == s[k].kids@);
    assert(s2[k].data == s[k].data);
    assert(s2[k].desc == s[k].desc);
    assert(s2[k].parent == Some(p as usize));
    assert(s2[k].desc == kids_sum(s2, s2[k].kids@));
    assert(s2[k].kids@.no_duplicates());
    assert(s2[p].strong == s[p].strong);
    assert(s2[p].kids@ == s[p].kids@);
    assert(s2[p].kids@.contains(k as usize));
    assert forall|t: int| 0 <= t < s2[k].kids@.len() implies (#[trigger] s2[k].kids@[t])
        < s2.len() && s2[s2[k].kids@[t] as int].strong > 0 && d[s2[k].kids@[t] as int] == d[k]
        + 1 by {
        assert(s[k].kids@[t] < s.len());
        assert(s[s[k].kids@[t] as int].strong > 0);
    }
}

/// Pointing a parentless live slot at a live parent that already lists it
/// keeps the store well formed.
#[verifier::spinoff_prover]
proof fn lemma_store_wf_patch_parent<T>(s: Seq<RcSlot<T>>, d: Map<int, nat>, k: int, p: int)
    requires
        store_slots_ok(s, d),
        s.len() <= usize::MAX,
        0 <= k < s.len(),
        0 <= p < s.len(),
        s[k].strong > 0,
        s[p].strong > 0,
        s[p].kids@.contains(k as usize),
        d[k] == d[p] + 1,
        s[k].parent is None,
    ensures
        store_slots_ok(s.update(k, RcSlot { parent: Some(p as usize), ..s[k] }), d),
{
    let s2 = s.update(k, RcSlot { parent: Some(p as usize), ..s[k] });
    assert(forall|x: int|
        0 <= x < s2.len() ==> (#[trigger] s2[x]).strong == s[x].strong && s2[x].kids
            == s[x].kids && s2[x].desc == s[x].desc && s2[x].data == s[x].data);
    assert forall|i: int| 0 <= i < s2.len() implies (if (#[trigger] s2[i]).strong > 0 {
        slot_ok(s2, d, i)
    } else {
        slot_dead(s2, i)
    }) by {
        if s2[i].strong > 0 {
            assert(slot_ok(s, d, i));
            if i != k {
                lemma_slot_ok_same_shape(s, s2, d, i);
            } else {
                lemma_slot_ok_patched(s, s2, d, k, p);
            }
        } else {
            assert(s2[i] == s[i]);
        }
    }
}


impl<T> RcStore<T> {
    /// Moves an owned tree into the store and returns the first handle
    /// to its root; the root's single owning interest becomes the
    /// handle, so no count changes hands.
    pub fn from_tree(&mut self, tree: Tree<T>) -> (h: RcNode<T>)
        requires
            old(self).wf(),
            tree.wf(),
            old(self).slots@.len() + tree_count(tree.model()) <= usize::MAX,
        ensures
            final(self).wf(),
            handle_ok(*final(self), h),
            final(self).slots@.len() == old(self).slots@.len() + tree_count(tree.model()),
            forall|j: int|
                0 <= j < old(self).slots@.len() ==> final(self).slots@[j]
                    == old(self).slots@[j],
            final(self).slots@[h.idx()].data == Some(tree.root.data),
            final(self).slots@[h.idx()].strong == 1,
            final(self).slots@[h.idx()].weak == 0,
            final(self).slots@[h.idx()].parent is None,
            final(self).slots@[h.idx()].desc == tree.root.size.descendants,
            final(self).slots@[h.idx()].kids@.len() == tree.model().kids.len(),
            forall|t: int|
                0 <= t < tree.model().kids.len() ==> final(self).slots@[(
                #[trigger] final(self).slots@[h.idx()].kids@[t]) as int].data == Some(
                    tree.model().kids[t].data,
                )
                    && final(self).slots@[final(self).slots@[h.idx()].kids@[t] as int].desc
                    == tree_count(tree.model().kids[t]) - 1,
            h is Piled <==> tree.root.piled,
    {
        let piled = tree.root.piled;
        let i = self.adopt_node(tree.root, Ghost(0));
        RcNode::make(i, piled)
    }

    /// Makes one more handle to the same node, raising its strong count.
    pub fn rc(&mut self, h: &RcNode<T>) -> (h2: RcNode<T>)
        requires
            old(self).wf(),
            handle_ok(*old(self), *h),
            old(self).slots@[h.idx()].strong < usize::MAX,
        ensures
            final(self).wf(),
            h2.idx() == h.idx(),
            final(self).depth@ == old(self).depth@,
            final(self).slots@ == old(self).slots@.update(
                h.idx(),
                RcSlot {
                    strong: (old(self).slots@[h.idx()].strong + 1) as usize,
                    ..old(self).slots@[h.idx()]
                },
            ),
    {
        let i = h.index();
        let ghost pre = self.slots@;
        let piled = matches!(*h, RcNode::Piled(_));
        let slot = vstd::std_specs::vec::vec_index_mut(&mut self.slots, i);
        slot.strong = slot.strong + 1;
        proof {
            assert(self.slots@ =~= pre.update(
                i as int,
                RcSlot { strong: (pre[i as int].strong + 1) as usize, ..pre[i as int] },
            ));
            lemma_store_wf_counts(pre, self.slots@, self.depth@);
        }
        RcNode::make(i, piled)
    }

    /// Makes a weak handle to the node, raising its weak count.
    pub fn downgrade(&mut self, h: &RcNode<T>) -> (w: WeakNode<T>)
        requires
            old(self).wf(),
            handle_ok(*old(self), *h),
            old(self).slots@[h.idx()].weak < usize::MAX,
        ensures
            final(self).wf(),
            w.idx() == h.idx(),
            final(self).depth@ == old(self).depth@,
            final(self).slots@ == old(self).slots@.update(
                h.idx(),
                RcSlot {
                    weak: (old(self).slots@[h.idx()].weak + 1) as usize,
                    ..old(self).slots@[h.idx()]
                },
            ),
    {
        let i = h.index();
        let ghost pre = self.slots@;
        let piled = matches!(*h, RcNode::Piled(_));
        let slot = vstd::std_specs::vec::vec_index_mut(&mut self.slots, i);
        slot.weak = slot.weak + 1;
        proof {
            assert(self.slots@ =~= pre.update(
                i as int,
                RcSlot { weak: (pre[i as int].weak + 1) as usize, ..pre[i as int] },
            ));
            lemma_store_wf_counts(pre, self.slots@, self.depth@);
        }
        if piled {
            WeakNode::Piled(PiledWeakNode { index: i, marker: core::marker::PhantomData })
        } else {
            WeakNode::Scattered(
                ScatteredWeakNode { index: i, marker: core::marker::PhantomData },
            )
        }
    }

    /// Attempts to turn a weak handle back into an owning one: succeeds,
    /// raising the strong count, exactly while the node is still alive.
    pub fn upgrade(&mut self, w: &WeakNode<T>) -> (r: Option<RcNode<T>>)
        requires
            old(self).wf(),
            0 <= w.idx() < old(self).slots@.len(),
            old(self).slots@[w.idx()].strong > 0 ==> old(self).slots@[w.idx()].strong
                < usize::MAX,
        ensures
            final(self).wf(),
            r is Some <==> old(self).slots@[w.idx()].strong > 0,
            old(self).slots@[w.idx()].strong == 0 ==> *final(self) == *old(self),
            old(self).slots@[w.idx()].strong > 0 ==> r.unwrap().idx() == w.idx()
                && final(self).slots@ == old(self).slots@.update(
                w.idx(),
                RcSlot {
                    strong: (old(self).slots@[w.idx()].strong + 1) as usize,
                    ..old(self).slots@[w.idx()]
                },
            ),
    {
        let i = match *w {
            WeakNode::Scattered(ref x) => x.index,
            WeakNode::Piled(ref x) => x.index,
        };
        let piled = matches!(*w, WeakNode::Piled(_));
        if self.slots[i].strong == 0 {
            return None;
        }
        let ghost pre = self.slots@;
        let slot = vstd::std_specs::vec::vec_index_mut(&mut self.slots, i);
        slot.strong = slot.strong + 1;
        proof {
            assert(self.slots@ =~= pre.update(
                i as int,
                RcSlot { strong: (pre[i as int].strong + 1) as usize, ..pre[i as int] },
            ));
            lemma_store_wf_counts(pre, self.slots@, self.depth@);
        }
        Some(RcNode::make(i, piled))
    }

    /// Gives up a weak handle, lowering the node's weak count.
    pub fn release_weak(&mut self, w: WeakNode<T>)
        requires
            old(self).wf(),
            0 <= w.idx() < old(self).slots@.len(),
            old(self).slots@[w.idx()].weak >= 1,
        ensures
            final(self).wf(),
            final(self).slots@ == old(self).slots@.update(
                w.idx(),
                RcSlot {
                    weak: (old(self).slots@[w.idx()].weak - 1) as usize,
                    ..old(self).slots@[w.idx()]
                },
            ),
    {
        let i = match w {
            WeakNode::Scattered(x) => x.index,
            WeakNode::Piled(x) => x.index,
        };
        let ghost pre = self.slots@;
        let slot = vstd::std_specs::vec::vec_index_mut(&mut self.slots, i);
        slot.weak = slot.weak - 1;
        proof {
            assert(self.slots@ =~= pre.update(
                i as int,
                RcSlot { weak: (pre[i as int].weak - 1) as usize, ..pre[i as int] },
            ));
            lemma_store_wf_counts(pre, self.slots@, self.depth@);
        }
    }

    /// Reference of the node's payload.
    pub fn data(&self, h: &RcNode<T>) -> (r: &T)
        requires
            self.wf(),
            handle_ok(*self, *h),
        ensures
            Some(*r) == self.slots@[h.idx()].data,
    {
        let i = h.index();
        self.slots[i].data.as_ref().unwrap()
    }

    /// Mutable reference of the node's payload.
    pub fn data_mut(&mut self, h: &RcNode<T>) -> (r: &mut T)
        requires
            old(self).wf(),
            handle_ok(*old(self), *h),
        ensures
            Some(*r) == old(self).slots@[h.idx()].data,
            final(self).wf(),
            final(self).depth@ == old(self).depth@,
            final(self).slots@ == old(self).slots@.update(
                h.idx(),
                with_data(old(self).slots@[h.idx()], *final(r)),
            ),
    {
        let i = h.index();
        let ghost pre = self.slots@;
        let ghost dd = self.depth@;
        proof {
            assert(pre[i as int].data is Some);
            assert forall|v: T|
                store_wf(#[trigger] pre.update(i as int, with_data(pre[i as int], v)), dd) by {
                lemma_store_wf_counts(
                    pre,
                    pre.update(i as int, with_data(pre[i as int], v)),
                    dd,
                );
            }
        }
        let slot = vstd::std_specs::vec::vec_index_mut(&mut self.slots, i);
        match &mut slot.data {
            Some(r) => r,
            None => vstd::pervasive::unreached(),
        }
    }

    /// Returns `true` while the node at the handle is attached to no
    /// parent.
    pub fn is_root(&self, h: &RcNode<T>) -> (r: bool)
        requires
            self.wf(),
            handle_ok(*self, *h),
        ensures
            r == (self.slots@[h.idx()].parent is None),
    {
        let i = h.index();
        matches!(self.slots[i].parent, None)
    }

    /// Returns `true` if the node has no child.
    pub fn has_no_child(&self, h: &RcNode<T>) -> (r: bool)
        requires
            self.wf(),
            handle_ok(*self, *h),
        ensures
            r == (self.slots@[h.idx()].kids@.len() == 0),
    {
        let i = h.index();
        self.slots[i].kids.len() == 0
    }

    /// Number of direct children of the node.
    pub fn degree(&self, h: &RcNode<T>) -> (r: usize)
        requires
            self.wf(),
            handle_ok(*self, *h),
        ensures
            r == self.slots@[h.idx()].kids@.len(),
    {
        let i = h.index();
        self.slots[i].kids.len()
    }

    /// Number of nodes of the subtree at the handle, the node included.
    pub fn node_count(&self, h: &RcNode<T>) -> (r: usize)
        requires
            self.wf(),
            handle_ok(*self, *h),
            self.slots@[h.idx()].desc < usize::MAX,
        ensures
            r == self.slots@[h.idx()].desc + 1,
    {
        let i = h.index();
        self.slots[i].desc + 1
    }

    /// Handle to the first child, or `None`; the child's strong count
    /// rises with the new handle.
    pub fn front(&mut self, h: &RcNode<T>) -> (r: Option<RcNode<T>>)
        requires
            old(self).wf(),
            handle_ok(*old(self), *h),
            old(self).slots@[h.idx()].kids@.len() > 0 ==> old(self).slots@[old(
                self,
            ).slots@[h.idx()].kids@[0] as int].strong < usize::MAX,
        ensures
            final(self).wf(),
            r is Some <==> old(self).slots@[h.idx()].kids@.len() > 0,
            old(self).slots@[h.idx()].kids@.len() == 0 ==> *final(self) == *old(self),
            old(self).slots@[h.idx()].kids@.len() > 0 ==> r.unwrap().idx()
                == old(self).slots@[h.idx()].kids@[0] && final(self).slots@
                == old(self).slots@.update(
                r.unwrap().idx(),
                RcSlot {
                    strong: (old(self).slots@[r.unwrap().idx()].strong + 1) as usize,
                    ..old(self).slots@[r.unwrap().idx()]
                },
            ),
    {
        let i = h.index();
        if self.slots[i].kids.len() == 0 {
            return None;
        }
        let k = self.slots[i].kids[0];
        let piled = self.slots[k].piled;
        let ghost pre = self.slots@;
        let slot = vstd::std_specs::vec::vec_index_mut(&mut self.slots, k);
        slot.strong = slot.strong + 1;
        proof {
            assert(self.slots@ =~= pre.update(
                k as int,
                RcSlot { strong: (pre[k as int].strong + 1) as usize, ..pre[k as int] },
            ));
            lemma_store_wf_counts(pre, self.slots@, self.depth@);
        }
        Some(RcNode::make(k, piled))
    }

    /// Handle to the last child, or `None`; the child's strong count
    /// rises with the new handle.
    pub fn back(&mut self, h: &RcNode<T>) -> (r: Option<RcNode<T>>)
        requires
            old(self).wf(),
            handle_ok(*old(self), *h),
            old(self).slots@[h.idx()].kids@.len() > 0 ==> old(self).slots@[old(
                self,
            ).slots@[h.idx()].kids@.last() as int].strong < usize::MAX,
        ensures
            final(self).wf(),
            r is Some <==> old(self).slots@[h.idx()].kids@.len() > 0,
            old(self).slots@[h.idx()].kids@.len() == 0 ==> *final(self) == *old(self),
            old(self).slots@[h.idx()].kids@.len() > 0 ==> r.unwrap().idx()
                == old(self).slots@[h.idx()].kids@.last() && final(self).slots@
                == old(self).slots@.update(
                r.unwrap().idx(),
                RcSlot {
                    strong: (old(self).slots@[r.unwrap().idx()].strong + 1) as usize,
                    ..old(self).slots@[r.unwrap().idx()]
                },
            ),
    {
        let i = h.index();
        let n = self.slots[i].kids.len();
        if n == 0 {
            return None;
        }
        let k = self.slots[i].kids[n - 1];
        let piled = self.slots[k].piled;
        let ghost pre = self.slots@;
        let slot = vstd::std_specs::vec::vec_index_mut(&mut self.slots, k);
        slot.strong = slot.strong + 1;
        proof {
            assert(self.slots@ =~= pre.update(
                k as int,
                RcSlot { strong: (pre[k as int].strong + 1) as usize, ..pre[k as int] },
            ));
            lemma_store_wf_counts(pre, self.slots@, self.depth@);
        }
        Some(RcNode::make(k, piled))
    }

    /// Handle to the parent, or `None` at a root; the parent's strong
    /// count rises with the new handle.
    pub fn parent(&mut self, h: &RcNode<T>) -> (r: Option<RcNode<T>>)
        requires
            old(self).wf(),
            handle_ok(*old(self), *h),
            old(self).slots@[h.idx()].parent is Some ==> old(self).slots@[old(
                self,
            ).slots@[h.idx()].parent.unwrap() as int].strong < usize::MAX,
        ensures
            final(self).wf(),
            r is Some <==> old(self).slots@[h.idx()].parent is Some,
            old(self).slots@[h.idx()].parent is None ==> *final(self) == *old(self),
            old(self).slots@[h.idx()].parent is Some ==> r.unwrap().idx()
                == old(self).slots@[h.idx()].parent.unwrap() && final(self).slots@
                == old(self).slots@.update(
                r.unwrap().idx(),
                RcSlot {
                    strong: (old(self).slots@[r.unwrap().idx()].strong + 1) as usize,
                    ..old(self).slots@[r.unwrap().idx()]
                },
            ),
    {
        let i = h.index();
        let k = match self.slots[i].parent {
            Some(p) => p,
            None => {
                return None;
            },
        };
        let piled = self.slots[k].piled;
        let ghost pre = self.slots@;
        let slot = vstd::std_specs::vec::vec_index_mut(&mut self.slots, k);
        slot.strong = slot.strong + 1;
        proof {
            assert(self.slots@ =~= pre.update(
                k as int,
                RcSlot { strong: (pre[k as int].strong + 1) as usize, ..pre[k as int] },
            ));
            lemma_store_wf_counts(pre, self.slots@, self.depth@);
        }
        Some(RcNode::make(k, piled))
    }

    /// Raises the strong count of one live slot.
    fn bump_strong(&mut self, k: usize)
        requires
            old(self).wf(),
            k < old(self).slots@.len(),
            old(self).slots@[k as int].strong > 0,
            old(self).slots@[k as int].strong < usize::MAX,
        ensures
            final(self).wf(),
            final(self).depth@ == old(self).depth@,
            final(self).slots@ == old(self).slots@.update(
                k as int,
                RcSlot {
                    strong: (old(self).slots@[k as int].strong + 1) as usize,
                    ..old(self).slots@[k as int]
                },
            ),
    {
        let ghost pre = self.slots@;
        let slot = vstd::std_specs::vec::vec_index_mut(&mut self.slots, k);
        slot.strong = slot.strong + 1;
        proof {
            assert(self.slots@ =~= pre.update(
                k as int,
                RcSlot { strong: (pre[k as int].strong + 1) as usize, ..pre[k as int] },
            ));
            lemma_store_wf_counts(pre, self.slots@, self.depth@);
        }
    }

    /// Handles to all children in order, each with its own strong count:
    /// every child's count rises by exactly one and nothing else of the
    /// store changes.
    pub fn iter_rc(&mut self, h: &RcNode<T>) -> (r: Vec<RcNode<T>>)
        requires
            old(self).wf(),
            handle_ok(*old(self), *h),
            forall|t: int|
                0 <= t < old(self).slots@[h.idx()].kids@.len() ==> old(self).slots@[(
                #[trigger] old(self).slots@[h.idx()].kids@[t]) as int].strong < usize::MAX,
        ensures
            final(self).wf(),
            final(self).depth@ == old(self).depth@,
            r@.len() == old(self).slots@[h.idx()].kids@.len(),
            forall|t: int|
                0 <= t < r@.len() ==> (#[trigger] r@[t]).idx()
                    == old(self).slots@[h.idx()].kids@[t],
            final(self).slots@ == bumped(
                old(self).slots@,
                old(self).slots@[h.idx()].kids@,
                old(self).slots@[h.idx()].kids@.len() as int,
            ),
    {
        let i = h.index();
        let mut out: Vec<RcNode<T>> = Vec::new();
        let deg = self.slots[i].kids.len();
        let ghost ks = self.slots@[i as int].kids@;
        let ghost s0 = self.slots@;
        proof {
            assert(slot_ok(self.slots@, self.depth@, i as int));
            assert(ks.no_duplicates());
            assert(bumped(s0, ks, 0) == s0);
        }
        let mut t: usize = 0;
        while t < deg
            invariant
                0 <= t <= deg,
                self.wf(),
                self.depth@ == old(self).depth@,
                s0 == old(self).slots@,
                i < s0.len(),
                i as int == h.idx(),
                ks == s0[i as int].kids@,
                ks.no_duplicates(),
                ks.len() == deg,
                forall|u: int| 0 <= u < deg ==> (#[trigger] ks[u]) < s0.len(),
                forall|u: int| 0 <= u < deg ==> s0[(#[trigger] ks[u]) as int].strong > 0,
                forall|u: int|
                    0 <= u < deg ==> s0[(#[trigger] ks[u]) as int].strong < usize::MAX,
                self.slots@ == bumped(s0, ks, t as int),
                out@.len() == t,
                forall|u: int| 0 <= u < t ==> (#[trigger] out@[u]).idx() == ks[u],
            decreases deg - t,
        {
            proof {
                lemma_bumped_pointwise(s0, ks, t as int);
            }
            let k = {
                let sl = &self.slots[i];
                proof {
                    assert(self.slots@[i as int].kids == s0[i as int].kids);
                }
                sl.kids[t]
            };
            let piled = self.slots[k].piled;
            proof {
                assert(ks[t as int] == k);
                assert(self.slots@[k as int].strong == s0[k as int].strong);
            }
            self.bump_strong(k);
            proof {
                assert(self.slots@ == bumped(s0, ks, t as int + 1));
            }
            out.push(RcNode::make(k, piled));
            t = t + 1;
        }
        out
    }
}

/// The slot with its payload replaced.
pub open spec fn with_data<T>(sl: RcSlot<T>, v: T) -> RcSlot<T> {
    RcSlot { data: Some(v), ..sl }
}

/// Changing only counts, or the payload of a live slot to another live
/// payload, keeps the store well formed.
#[verifier::spinoff_prover]
proof fn lemma_store_wf_counts<T>(s1: Seq<RcSlot<T>>, s2: Seq<RcSlot<T>>, d: Map<int, nat>)
    requires
        store_wf(s1, d),
        s1.len() == s2.len(),
        forall|x: int|
            0 <= x < s1.len() ==> ((#[trigger] s2[x]).strong > 0 <==> s1[x].strong > 0)
                && s2[x].kids == s1[x].kids && s2[x].desc == s1[x].desc && (s2[x].data
                is Some <==> s1[x].data is Some) && s2[x].parent == s1[x].parent,
    ensures
        store_wf(s2, d),
{
    assert forall|i: int| 0 <= i < s2.len() implies (if (#[trigger] s2[i]).strong > 0 {
        slot_ok(s2, d, i)
    } else {
        slot_dead(s2, i)
    }) by {
        if s2[i].strong > 0 {
            assert(slot_ok(s1, d, i));
            lemma_kids_sum_congruence(s1, s2, s1[i].kids@);
        } else {
            assert(slot_dead(s1, i));
        }
    }
    assert forall|j: int, t: int|
        0 <= j < s2.len() && 0 <= t < s2[j].kids@.len() implies 0 <= (
    #[trigger] s2[j].kids@[t]) < s2.len() && s2[s2[j].kids@[t] as int].parent == Some(
        j as usize,
    ) by {
        assert(s2[j].kids@ == s1[j].kids@);
        assert(s1[s1[j].kids@[t] as int].parent == Some(j as usize));
    }
}


impl<T> RcStore<T> {
    /// Gives up an owning handle.  While other owners remain only the
    /// strong count drops; when the last one goes the node dies: its
    /// children are detached and lose their structural owner in turn,
    /// iteratively, and every payload whose node ran out of owners is
    /// dropped.  Weak handles observe the death through a failing
    /// upgrade.
    #[verifier::rlimit(100)]
    #[verifier::spinoff_prover]
    pub fn release(&mut self, h: RcNode<T>)
        requires
            old(self).wf(),
            handle_ok(*old(self), h),
            old(self).slots@[h.idx()].parent is Some ==> old(self).slots@[h.idx()].strong
                > 1,
        ensures
            final(self).wf(),
            final(self).slots@.len() == old(self).slots@.len(),
            final(self).depth@ == old(self).depth@,
            forall|j: int|
                0 <= j < old(self).slots@.len() ==> (#[trigger] final(self).slots@[j]).weak
                    == old(self).slots@[j].weak,
            forall|j: int|
                0 <= j < old(self).slots@.len() ==> (#[trigger] final(self).slots@[j]).strong
                    <= old(self).slots@[j].strong,
            forall|j: int|
                0 <= j < old(self).slots@.len() ==> (#[trigger] final(self).slots@[j]).strong
                    + 1 >= old(self).slots@[j].strong,
            forall|j: int|
                0 <= j < old(self).slots@.len() && j != h.idx()
                    && (#[trigger] final(self).slots@[j]).parent is Some
                    ==> final(self).slots@[j] == old(self).slots@[j],
            forall|j: int|
                0 <= j < old(self).slots@.len() && (#[trigger] final(self).slots@[j]).strong
                    > 0 ==> final(self).slots@[j].data == old(self).slots@[j].data
                    && final(self).slots@[j].kids == old(self).slots@[j].kids
                    && final(self).slots@[j].desc == old(self).slots@[j].desc,
            old(self).slots@[h.idx()].strong > 1 ==> final(self).slots@
                == old(self).slots@.update(
                h.idx(),
                RcSlot {
                    strong: (old(self).slots@[h.idx()].strong - 1) as usize,
                    ..old(self).slots@[h.idx()]
                },
            ),
            old(self).slots@[h.idx()].strong == 1 ==> final(self).slots@[h.idx()].strong
                == 0 && final(self).slots@[h.idx()].data is None,
    {
        let i = h.index();
        let n = self.slots.len();
        if self.slots[i].strong > 1 {
            let ghost pre = self.slots@;
            let slot = vstd::std_specs::vec::vec_index_mut(&mut self.slots, i);
            slot.strong = slot.strong - 1;
            proof {
                assert(self.slots@ =~= pre.update(
                    i as int,
                    RcSlot { strong: (pre[i as int].strong - 1) as usize, ..pre[i as int] },
                ));
                lemma_store_wf_counts(pre, self.slots@, self.depth@);
            }
            return ;
        }
        // The last owner is gone: the node dies, and its subtree is
        // detached and recounted, child by child, with a worklist of
        // dying nodes.
        let ghost pre = self.slots@;
        {
            let slot = vstd::std_specs::vec::vec_index_mut(&mut self.slots, i);
            slot.strong = 0;
        }
        let mut ws: Vec<usize> = Vec::new();
        ws.push(i);
        proof {
            assert(self.slots@ =~= pre.update(
                i as int,
                RcSlot { strong: 0, ..pre[i as int] },
            ));
            lemma_store_wf_z_start(pre, self.slots@, self.depth@, i as int);
            assert(ws@ =~= seq![i]);
            assert(ws@[0] == i);
        }
        while ws.len() > 0
            invariant
                self.slots@.len() == n,
                n == old(self).slots@.len(),
                i < n,
                self.depth@ == old(self).depth@,
                store_wf_z(self.slots@, self.depth@),
                forall|j: int|
                    0 <= j < n && (#[trigger] self.slots@[j]).strong == 0
                        && self.slots@[j].data is Some ==> ws@.contains(j as usize),
                forall|t: int|
                    0 <= t < ws@.len() ==> (#[trigger] ws@[t]) < n
                        && self.slots@[ws@[t] as int].strong == 0
                        && self.slots@[ws@[t] as int].data is Some,
                ws@.no_duplicates(),
                forall|j: int|
                    0 <= j < n ==> (#[trigger] self.slots@[j]).weak
                        == old(self).slots@[j].weak,
                forall|j: int|
                    0 <= j < n ==> (#[trigger] self.slots@[j]).strong
                        <= old(self).slots@[j].strong,
                forall|j: int|
                    0 <= j < n ==> (#[trigger] self.slots@[j]).strong + 1
                        >= old(self).slots@[j].strong,
                forall|j: int|
                    0 <= j < n && (#[trigger] self.slots@[j]).parent is Some ==> self.slots@[j]
                        == old(self).slots@[j],
                forall|j: int|
                    0 <= j < n && (#[trigger] self.slots@[j]).strong > 0 ==> self.slots@[j].data
                        == old(self).slots@[j].data && self.slots@[j].kids
                        == old(self).slots@[j].kids && self.slots@[j].desc
                        == old(self).slots@[j].desc,
                self.slots@[i as int].strong == 0,
            decreases zmeasure(self.slots@, ws@),
        {
            let ghost ws0 = ws@;
            let ghost s0 = self.slots@;
            let ghost dd = self.depth@;
            let x = ws[ws.len() - 1];
            proof {
                assert(ws0[ws0.len() - 1] == x);
                assert(slot_zombie(s0, dd, x as int));
            }
            if self.slots[x].kids.len() == 0 {
                {
                    let slot = vstd::std_specs::vec::vec_index_mut(&mut self.slots, x);
                    slot.data = None;
                }
                ws.pop();
                proof {
                    assert(self.slots@ =~= s0.update(
                        x as int,
                        RcSlot { data: None, ..s0[x as int] },
                    ));
                    assert(ws@ =~= ws0.drop_last());
                    lemma_store_wf_z_finish(s0, self.slots@, dd, x as int);
                    assert forall|j: int|
                        0 <= j < n && (#[trigger] self.slots@[j]).strong == 0
                            && self.slots@[j].data is Some implies ws@.contains(
                        j as usize,
                    ) by {
                        assert(j != x as int);
                        assert(s0[j].strong == 0 && s0[j].data is Some);
                        assert(ws0.contains(j as usize));
                        let t = choose|t: int| 0 <= t < ws0.len() && ws0[t] == j as usize;
                        assert(t != ws0.len() - 1);
                        assert(ws@[t] == j as usize);
                    }
                    lemma_zmeasure_push(s0, ws0.drop_last(), x);
                    assert(ws0.drop_last().push(x) =~= ws0);
                    lemma_zmeasure_congruence(s0, self.slots@, ws0.drop_last());
                    assert forall|j: int| 0 <= j < n implies (
                    #[trigger] self.slots@[j]).strong <= old(self).slots@[j].strong by {
                        assert(self.slots@[j].strong == s0[j].strong);
                    }
                }
            } else {
                let k = self.slots[x].kids[0];
                proof {
                    assert(s0[x as int].kids@[0] == k);
                    assert(k < n);
                    assert(s0[k as int].strong > 0);
                    lemma_kids_sum_remove(s0, s0[x as int].kids@, 0);
                }
                let kd = self.slots[k].desc;
                {
                    let slotx = vstd::std_specs::vec::vec_index_mut(&mut self.slots, x);
                    slotx.kids.remove(0);
                    slotx.desc = slotx.desc - 1 - kd;
                }
                let ghost s1 = self.slots@;
                proof {
                    assert(k != x) by {
                        assert(s0[k as int].strong > 0);
                    }
                    assert(s1[x as int].kids@ == s0[x as int].kids@.remove(0));
                }
                {
                    let slotk = vstd::std_specs::vec::vec_index_mut(&mut self.slots, k);
                    slotk.parent = None;
                    slotk.strong = slotk.strong - 1;
                }
                let dies = self.slots[k].strong == 0;
                if dies {
                    ws.push(k);
                }
                proof {
                    lemma_store_wf_z_detach(s0, self.slots@, dd, x as int, k as int);
                    if dies {
                        assert(ws@ =~= ws0.push(k));
                    }
                    assert(!ws0.contains(k)) by {
                        if ws0.contains(k) {
                            let t = choose|t: int| 0 <= t < ws0.len() && ws0[t] == k;
                            assert(s0[k as int].strong == 0);
                        }
                    }
                    assert forall|j: int|
                        0 <= j < n && (#[trigger] self.slots@[j]).strong == 0
                            && self.slots@[j].data is Some implies ws@.contains(
                        j as usize,
                    ) by {
                        if j == k as int {
                            assert(dies);
                            assert(ws@[ws@.len() - 1] == k);
                        } else {
                            assert(s0[j].strong == 0 && s0[j].data is Some);
                            assert(ws0.contains(j as usize));
                            let t = choose|t: int|
                                0 <= t < ws0.len() && ws0[t] == j as usize;
                            assert(ws@[t] == j as usize);
                        }
                    }
                    assert forall|t: int|
                        0 <= t < ws@.len() implies (#[trigger] ws@[t]) < n
                        && self.slots@[ws@[t] as int].strong == 0
                        && self.slots@[ws@[t] as int].data is Some by {
                        if t < ws0.len() {
                            assert(ws@[t] == ws0[t]);
                            assert(ws0[t] != k);
                        }
                    }
                    // The measure shrinks in either case.
                    lemma_zmeasure_push(s0, ws0.drop_last(), x);
                    assert(ws0.drop_last().push(x) =~= ws0);
                    lemma_zmeasure_congruence(s0, self.slots@, ws0.drop_last());
                    lemma_zmeasure_push(self.slots@, ws0.drop_last(), x);
                    if dies {
                        lemma_zmeasure_push(self.slots@, ws0, k);
                        assert(zmeasure(self.slots@, ws0) == zmeasure(
                            self.slots@,
                            ws0.drop_last(),
                        ) + 2 * self.slots@[x as int].desc + 1);
                    }
                    assert forall|j: int| 0 <= j < n implies (
                    #[trigger] self.slots@[j]).strong <= old(self).slots@[j].strong by {
                        if j != k as int {
                            assert(self.slots@[j].strong == s0[j].strong);
                        }
                    }
                }
            }
        }
        proof {
            assert forall|j: int|
                0 <= j < self.slots@.len() && (#[trigger] self.slots@[j]).strong == 0 implies
                self.slots@[j].data is None by {
                if self.slots@[j].data is Some {
                    assert(ws@.contains(j as usize));
                }
            }
            lemma_store_wf_z_empty(self.slots@, self.depth@);
        }
    }
}


/// A freshly dying parentless slot becomes the store's only dying node.
#[verifier::rlimit(100)]
#[verifier::spinoff_prover]
proof fn lemma_store_wf_z_start<T>(
    s: Seq<RcSlot<T>>,
    s2: Seq<RcSlot<T>>,
    d: Map<int, nat>,
    i: int,
)
    requires
        store_wf(s, d),
        0 <= i < s.len(),
        s.len() <= usize::MAX,
        s[i].strong > 0,
        s[i].parent is None,
        s2 == s.update(i, RcSlot { strong: 0, ..s[i] }),
    ensures
        store_wf_z(s2, d),
        forall|j: int|
            0 <= j < s2.len() && (#[trigger] s2[j]).strong == 0 && s2[j].data is Some ==> j
                == i,
{
    assert(forall|x: int|
        0 <= x < s2.len() ==> (#[trigger] s2[x]).kids == s[x].kids && s2[x].desc == s[x].desc
            && s2[x].data == s[x].data && s2[x].parent == s[x].parent);
    assert forall|j: int| 0 <= j < s2.len() implies (if (#[trigger] s2[j]).strong > 0 {
        slot_ok_z(s2, d, j)
    } else if s2[j].data is Some {
        slot_zombie(s2, d, j)
    } else {
        slot_dead(s2, j)
    }) by {
        if s2[j].strong > 0 {
            assert(slot_ok(s, d, j));
            lemma_kids_sum_congruence(s, s2, s[j].kids@);
            assert forall|t: int| 0 <= t < s2[j].kids@.len() implies (
            #[trigger] s2[j].kids@[t]) < s2.len() && s2[s2[j].kids@[t] as int].strong > 0
                && d[s2[j].kids@[t] as int] == d[j] + 1 by {
                assert(s[s[j].kids@[t] as int].parent == Some(j as usize));
                assert(s[j].kids@[t] != i);
            }
        } else if j == i {
            assert(slot_ok(s, d, i));
            lemma_kids_sum_congruence(s, s2, s[i].kids@);
            assert forall|t: int| 0 <= t < s2[i].kids@.len() implies (
            #[trigger] s2[i].kids@[t]) < s2.len() && s2[s2[i].kids@[t] as int].strong > 0
                && d[s2[i].kids@[t] as int] == d[i] + 1 by {
                assert(s[s[i].kids@[t] as int].parent == Some(i as usize));
                assert(s[i].kids@[t] != i);
            }
            assert(slot_zombie(s2, d, i));
        } else {
            assert(s[j].strong == 0);
            assert(slot_dead(s, j));
        }
    }
    assert forall|j: int, t: int|
        0 <= j < s2.len() && 0 <= t < s2[j].kids@.len() implies 0 <= (
    #[trigger] s2[j].kids@[t]) < s2.len() && s2[s2[j].kids@[t] as int].parent == Some(
        j as usize,
    ) by {
        assert(s[s[j].kids@[t] as int].parent == Some(j as usize));
    }
}

/// A dying node with no children left is properly dead once its payload
/// is dropped.
#[verifier::rlimit(100)]
#[verifier::spinoff_prover]
proof fn lemma_store_wf_z_finish<T>(
    s: Seq<RcSlot<T>>,
    s2: Seq<RcSlot<T>>,
    d: Map<int, nat>,
    x: int,
)
    requires
        store_wf_z(s, d),
        0 <= x < s.len(),
        s[x].strong == 0,
        s[x].data is Some,
        s[x].kids@.len() == 0,
        s2 == s.update(x, RcSlot { data: None, ..s[x] }),
    ensures
        store_wf_z(s2, d),
{
    assert(slot_zombie(s, d, x));
    assert(kids_sum(s, s[x].kids@) == 0);
    assert(forall|y: int|
        0 <= y < s2.len() ==> (#[trigger] s2[y]).kids == s[y].kids && s2[y].desc == s[y].desc
            && s2[y].strong == s[y].strong && s2[y].parent == s[y].parent);
    assert forall|j: int| 0 <= j < s2.len() implies (if (#[trigger] s2[j]).strong > 0 {
        slot_ok_z(s2, d, j)
    } else if s2[j].data is Some {
        slot_zombie(s2, d, j)
    } else {
        slot_dead(s2, j)
    }) by {
        if s2[j].strong > 0 {
            assert(slot_ok_z(s, d, j));
            lemma_kids_sum_congruence(s, s2, s[j].kids@);
            if s2[j].parent is Some {
                let pp = s2[j].parent.unwrap();
                assert(s[pp as int].kids@.contains(j as usize));
                assert(pp as int != x);
            }
        } else if s2[j].data is Some {
            assert(j != x);
            assert(slot_zombie(s, d, j));
            lemma_kids_sum_congruence(s, s2, s[j].kids@);
        } else {
            if j == x {
                assert(slot_dead(s2, x));
            } else {
                assert(slot_dead(s, j));
            }
        }
    }
    assert forall|j: int, t: int|
        0 <= j < s2.len() && 0 <= t < s2[j].kids@.len() implies 0 <= (
    #[trigger] s2[j].kids@[t]) < s2.len() && s2[s2[j].kids@[t] as int].parent == Some(
        j as usize,
    ) by {
        assert(s[s[j].kids@[t] as int].parent == Some(j as usize));
    }
}

/// After the worklist has drained, no dying node remains and the store
/// is well formed again.
proof fn lemma_store_wf_z_empty<T>(s: Seq<RcSlot<T>>, d: Map<int, nat>)
    requires
        store_wf_z(s, d),
        forall|j: int|
            0 <= j < s.len() && (#[trigger] s[j]).strong == 0 ==> s[j].data is None,
    ensures
        store_wf(s, d),
{
    assert forall|i: int| 0 <= i < s.len() implies (if (#[trigger] s[i]).strong > 0 {
        slot_ok(s, d, i)
    } else {
        slot_dead(s, i)
    }) by {
        if s[i].strong > 0 {
            assert(slot_ok_z(s, d, i));
            if s[i].parent is Some {
                let pp = s[i].parent.unwrap();
                assert(s[pp as int].data is Some);
                assert(s[pp as int].strong > 0);
            }
        }
    }
}


/// One step of the death cascade: the dying slot `x` detaches its first
/// child `k`, which loses its structural owner and may begin to die in
/// turn.
#[verifier::rlimit(100)]
#[verifier::spinoff_prover]
proof fn lemma_store_wf_z_detach<T>(
    s0: Seq<RcSlot<T>>,
    s2: Seq<RcSlot<T>>,
    d: Map<int, nat>,
    x: int,
    k: int,
)
    requires
        store_wf_z(s0, d),
        s0.len() <= usize::MAX,
        0 <= x < s0.len(),
        s0[x].strong == 0,
        s0[x].data is Some,
        s0[x].kids@.len() > 0,
        0 <= k < s0.len(),
        s0[x].kids@[0] == k as usize,
        s0[k].strong > 0,
        s2.len() == s0.len(),
        forall|y: int| 0 <= y < s0.len() && y != x && y != k ==> s2[y] == s0[y],
        s2[x].kids@ == s0[x].kids@.remove(0),
        s2[x].desc == s0[x].desc - 1 - s0[k].desc,
        s2[x].strong == s0[x].strong,
        s2[x].weak == s0[x].weak,
        s2[x].data == s0[x].data,
        s2[x].parent == s0[x].parent,
        s2[k].parent is None,
        s2[k].strong == s0[k].strong - 1,
        s2[k].weak == s0[k].weak,
        s2[k].kids == s0[k].kids,
        s2[k].desc == s0[k].desc,
        s2[k].data == s0[k].data,
    ensures
        store_wf_z(s2, d),
{
    assert(slot_zombie(s0, d, x));
    assert(k != x);
    assert(s0[s0[x].kids@[0] as int].parent == Some(x as usize));
    assert(s0[k].parent == Some(x as usize));
    lemma_kids_sum_remove(s0, s0[x].kids@, 0);
    // Any list entry equal to `k` sits in `x`'s list, at position 0.
    assert forall|j: int, t: int|
        0 <= j < s0.len() && 0 <= t < s0[j].kids@.len() && (#[trigger] s0[j].kids@[t])
            == k as usize implies j == x && t == 0 by {
        assert(s0[s0[j].kids@[t] as int].parent == Some(j as usize));
        assert(j == x);
        if t != 0 {
            assert(s0[x].kids@.no_duplicates());
        }
    }
    assert forall|j: int| 0 <= j < s2.len() implies (if (#[trigger] s2[j]).strong > 0 {
        slot_ok_z(s2, d, j)
    } else if s2[j].data is Some {
        slot_zombie(s2, d, j)
    } else {
        slot_dead(s2, j)
    }) by {
        if j == x {
            assert forall|t: int|
                0 <= t < s2[x].kids@.len() implies s0[(#[trigger] s2[x].kids@[t]) as int].desc
                == s2[s2[x].kids@[t] as int].desc && s2[s2[x].kids@[t] as int].strong > 0
                && (s2[x].kids@[t]) < s2.len() && d[s2[x].kids@[t] as int] == d[x] + 1 by {
                assert(s2[x].kids@[t] == s0[x].kids@[t + 1]);
                assert(s0[x].kids@[t + 1] != k as usize);
                assert(s0[s0[x].kids@[t + 1] as int].strong > 0);
            }
            lemma_kids_sum_congruence(s0, s2, s2[x].kids@);
            assert(slot_zombie(s2, d, x));
        } else if j == k {
            assert(slot_ok_z(s0, d, k));
            assert forall|t: int|
                0 <= t < s2[k].kids@.len() implies s0[(#[trigger] s2[k].kids@[t]) as int].desc
                == s2[s2[k].kids@[t] as int].desc && s2[s2[k].kids@[t] as int].strong > 0
                && (s2[k].kids@[t]) < s2.len() && d[s2[k].kids@[t] as int] == d[k] + 1 by {
                assert(s0[k].kids@[t] != k as usize);
                assert(s0[k].kids@[t] != x as usize || s0[x].strong > 0);
                assert(s0[s0[k].kids@[t] as int].strong > 0);
            }
            lemma_kids_sum_congruence(s0, s2, s2[k].kids@);
            if s2[k].strong > 0 {
                assert(slot_ok_z(s2, d, k));
            } else {
                assert(slot_zombie(s2, d, k));
            }
        } else {
            if s2[j].strong > 0 {
                assert(slot_ok_z(s0, d, j));
                assert forall|t: int|
                    0 <= t < s2[j].kids@.len() implies s0[(#[trigger] s2[j].kids@[t]) as int].desc
                    == s2[s2[j].kids@[t] as int].desc && s2[s2[j].kids@[t] as int].strong
                    > 0 && (s2[j].kids@[t]) < s2.len() && d[s2[j].kids@[t] as int] == d[j]
                    + 1 by {
                    assert(s0[j].kids@[t] != k as usize);
                    assert(s0[s0[j].kids@[t] as int].strong > 0);
                }
                lemma_kids_sum_congruence(s0, s2, s2[j].kids@);
                if s2[j].parent is Some {
                    let pp = s2[j].parent.unwrap();
                    assert(s0[j].parent == Some(pp));
                    assert(s0[pp as int].kids@.contains(j as usize));
                    assert(s0[pp as int].data is Some);
                    if pp as int == x {
                        let t = choose|t: int|
                            0 <= t < s0[x].kids@.len() && s0[x].kids@[t] == j as usize;
                        assert(t != 0);
                        assert(s2[x].kids@[t - 1] == j as usize);
                        assert(s2[x].kids@.contains(j as usize));
                        assert(s2[x].data is Some);
                    } else if pp as int == k {
                        assert(s2[k].kids@ == s0[k].kids@);
                        assert(s2[k].kids@.contains(j as usize));
                        assert(s2[k].data is Some);
                    } else {
                        assert(s2[pp as int] == s0[pp as int]);
                    }
                }
                assert(slot_ok_z(s2, d, j));
            } else if s2[j].data is Some {
                assert(slot_zombie(s0, d, j));
                assert forall|t: int|
                    0 <= t < s2[j].kids@.len() implies s0[(#[trigger] s2[j].kids@[t]) as int].desc
                    == s2[s2[j].kids@[t] as int].desc && s2[s2[j].kids@[t] as int].strong
                    > 0 && (s2[j].kids@[t]) < s2.len() && d[s2[j].kids@[t] as int] == d[j]
                    + 1 by {
                    assert(s0[j].kids@[t] != k as usize);
                    assert(s0[s0[j].kids@[t] as int].strong > 0);
                }
                lemma_kids_sum_congruence(s0, s2, s2[j].kids@);
                assert(slot_zombie(s2, d, j));
            } else {
                assert(slot_dead(s0, j));
                assert(slot_dead(s2, j));
            }
        }
    }
    assert forall|j: int, t: int|
        0 <= j < s2.len() && 0 <= t < s2[j].kids@.len() implies 0 <= (
    #[trigger] s2[j].kids@[t]) < s2.len() && s2[s2[j].kids@[t] as int].parent == Some(
        j as usize,
    ) by {
        if j == x {
            assert(s2[x].kids@[t] == s0[x].kids@[t + 1]);
            assert(s0[x].kids@[t + 1] != k as usize);
            assert(s0[s0[x].kids@[t + 1] as int].parent == Some(x as usize));
        } else {
            assert(s2[j].kids@ == s0[j].kids@);
            assert(s0[j].kids@[t] != k as usize);
            assert(s0[s0[j].kids@[t] as int].parent == Some(j as usize));
        }
    }
}

} // verus!
