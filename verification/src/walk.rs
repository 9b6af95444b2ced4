//! Depth-first traversal cursor over trees and forests.
//!
//! The cursor keeps an explicit stack of frames instead of recursing:
//! each frame holds the position of the current sibling inside its
//! sibling list and the list's bound.  `Begin` and `End` bracket a
//! branch node's subtree, `Leaf` reports a childless node once.
//! Navigation past the available siblings or children yields `None` and
//! leaves the cursor in a well-defined exhausted state.

use vstd::prelude::*;

use crate::forest::Forest;
use crate::node::{kids_model, lemma_kids_model, Node};
use crate::size::Size;
use crate::tree::Tree;

verus! {

/// One event of the depth-first traversal.
pub enum Visit<'a, T> {
    Begin(&'a Node<T>),
    End(&'a Node<T>),
    Leaf(&'a Node<T>),
}

impl<'a, T> Visit<'a, T> {
    /// The node under visit, whichever way it is being visited.
    pub fn node(&self) -> (r: &'a Node<T>)
        ensures
            *r == match *self {
                Visit::Begin(n) => *n,
                Visit::End(n) => *n,
                Visit::Leaf(n) => *n,
            },
    {
        match *self {
            Visit::Begin(n) => n,
            Visit::End(n) => n,
            Visit::Leaf(n) => n,
        }
    }
}

/// The node a visit reports, as a spec value.
pub open spec fn visit_node<T>(v: Visit<T>) -> Node<T> {
    match v {
        Visit::Begin(n) => *n,
        Visit::End(n) => *n,
        Visit::Leaf(n) => *n,
    }
}

/// What the cursor currently reports.
#[derive(Clone, Copy, PartialEq, Eq, Structural, Debug)]
pub enum Kind {
    Idle,
    Begin,
    End,
    Leaf,
}

/// The direction the next `forward` step takes.
#[derive(Clone, Copy, PartialEq, Eq, Structural, Debug)]
pub enum Dir {
    Up,
    Down,
    Right,
}

/// One stack frame: the current position in a sibling list and the
/// list's bound.
#[derive(Clone, Copy, PartialEq, Eq, Structural, Debug)]
pub struct Frame {
    pub pos: usize,
    pub limit: usize,
}

/// The ghost state of a cursor.
pub ghost struct WalkModel<T> {
    pub top: Seq<Node<T>>,
    pub path: Seq<Frame>,
    pub dir: Dir,
    pub kind: Kind,
}

/// Every frame of the path indexes properly into its sibling list; the
/// last frame may rest one past its bound (the exhausted position).
pub open spec fn frames_ok<T>(top: Seq<Node<T>>, path: Seq<Frame>) -> bool
    decreases path.len(),
{
    if path.len() == 0 {
        true
    } else {
        let f = path[0];
        &&& 1 <= f.limit <= top.len()
        &&& (if path.len() == 1 {
            f.pos <= f.limit
        } else {
            f.pos < f.limit
        })
        &&& (path.len() > 1 ==> frames_ok(
            top[f.pos as int].children@,
            path.subrange(1, path.len() as int),
        ))
    }
}

/// The node the cursor rests on (defined when the last frame is within
/// its bound).
pub open spec fn cur_node<T>(top: Seq<Node<T>>, path: Seq<Frame>) -> Node<T>
    decreases path.len(),
{
    if path.len() <= 1 {
        top[path[0].pos as int]
    } else {
        cur_node(top[path[0].pos as int].children@, path.subrange(1, path.len() as int))
    }
}

/// The cursor points at a node: the path is non-empty and its last frame
/// has not run past its bound.
pub open spec fn at_node<T>(m: WalkModel<T>) -> bool {
    m.path.len() > 0 && m.path.last().pos < m.path.last().limit
}

/// Well-formedness of a cursor state.
pub open spec fn walk_wf<T>(m: WalkModel<T>) -> bool {
    &&& frames_ok(m.top, m.path)
    &&& forall|i: int| 0 <= i < m.top.len() ==> (#[trigger] m.top[i]).wf()
    &&& (m.kind is Idle <==> m.path.len() == 0)
    &&& (m.path.len() == 0 ==> m.dir is Down)
    &&& (at_node(m) ==> ((m.kind is Leaf) <==> cur_node(m.top, m.path).children@.len()
        == 0))
    &&& (m.path.len() > 0 && !at_node(m) ==> m.dir is Up)
}

/// What one `Begin`-or-`Leaf` classification of a node yields.
pub open spec fn classify<T>(n: Node<T>) -> Kind {
    if n.children@.len() == 0 {
        Kind::Leaf
    } else {
        Kind::Begin
    }
}

/// The `Up` phase: pop the frame; report `End` for the parent, or finish.
pub open spec fn step_up<T>(m: WalkModel<T>) -> WalkModel<T> {
    let path = m.path.drop_last();
    if path.len() > 0 {
        WalkModel { top: m.top, path, dir: Dir::Right, kind: Kind::End }
    } else {
        WalkModel { top: m.top, path, dir: Dir::Down, kind: Kind::Idle }
    }
}

/// The `Right` phase: advance to the next sibling, or go up.
pub open spec fn step_right<T>(m: WalkModel<T>) -> WalkModel<T> {
    let f = m.path.last();
    if f.pos + 1 >= f.limit {
        step_up(m)
    } else {
        let path = m.path.update(
            m.path.len() - 1,
            Frame { pos: (f.pos + 1) as usize, limit: f.limit },
        );
        let kind = classify(cur_node(m.top, path));
        WalkModel {
            top: m.top,
            path,
            dir: if kind is Begin {
                Dir::Down
            } else {
                Dir::Right
            },
            kind,
        }
    }
}

/// The `Down` phase: enter the first child, or try the next sibling.
pub open spec fn step_down<T>(m: WalkModel<T>) -> WalkModel<T> {
    if m.path.len() == 0 {
        m
    } else {
        let n = cur_node(m.top, m.path);
        if n.children@.len() == 0 {
            step_right(WalkModel { top: m.top, path: m.path, dir: Dir::Right, kind: m.kind })
        } else {
            let path = m.path.push(Frame { pos: 0, limit: n.children@.len() as usize });
            WalkModel { top: m.top, path, dir: Dir::Down, kind: classify(n.children@[0]) }
        }
    }
}

/// One full `forward` transition.
pub open spec fn step<T>(m: WalkModel<T>) -> WalkModel<T> {
    match m.dir {
        Dir::Up => step_up(m),
        Dir::Down => step_down(m),
        Dir::Right => step_right(m),
    }
}

/// The traversal engine shared by [`TreeWalk`] and [`ForestWalk`]: it
/// owns the nodes for the session and navigates them with an explicit
/// frame stack.
pub struct Walk<T> {
    pub top: Vec<Node<T>>,
    pub path: Vec<Frame>,
    pub dir: Dir,
    pub kind: Kind,
}

impl<T> Walk<T> {
    /// The ghost state of this cursor.
    pub open spec fn wmodel(&self) -> WalkModel<T> {
        WalkModel { top: self.top@, path: self.path@, dir: self.dir, kind: self.kind }
    }

    /// Starts a traversal over a list of root nodes.
    pub fn on_forest(top: Vec<Node<T>>) -> (w: Walk<T>)
        requires
            forall|i: int| 0 <= i < top@.len() ==> (#[trigger] top@[i]).wf(),
        ensures
            walk_wf(w.wmodel()),
            w.top == top,
            top@.len() == 0 ==> w.wmodel().path.len() == 0 && w.kind is Idle,
            top@.len() > 0 ==> w.wmodel().path == seq![
                Frame { pos: 0, limit: top@.len() as usize },
            ] && w.kind == classify(top@[0]) && w.dir is Down,
    {
        let len = top.len();
        let mut w = Walk { top, path: Vec::new(), dir: Dir::Down, kind: Kind::Idle };
        if len > 0 {
            let kind = if w.top[0].children.len() == 0 {
                Kind::Leaf
            } else {
                Kind::Begin
            };
            w.path.push(Frame { pos: 0, limit: len });
            w.kind = kind;
        }
        w
    }

    /// Resets the cursor to the not-yet-started state.
    pub fn reset(&mut self)
        ensures
            final(self).top == old(self).top,
            final(self).path@.len() == 0,
            final(self).dir is Down,
            final(self).kind is Idle,
    {
        self.path.clear();
        self.dir = Dir::Down;
        self.kind = Kind::Idle;
    }

    /// Reference of the node the cursor rests on.
    fn node_at(&self) -> (r: &Node<T>)
        requires
            frames_ok(self.top@, self.path@),
            forall|i: int| 0 <= i < self.top@.len() ==> (#[trigger] self.top@[i]).wf(),
            at_node(self.wmodel()),
        ensures
            *r == cur_node(self.top@, self.path@),
            r.wf(),
    {
        let mut cur = &self.top[self.path[0].pos];
        let mut k: usize = 1;
        let len = self.path.len();
        while k < len
            invariant
                1 <= k <= len,
                len == self.path@.len(),
                frames_ok(self.top@, self.path@),
                forall|i: int| 0 <= i < self.top@.len() ==> (#[trigger] self.top@[i]).wf(),
                at_node(self.wmodel()),
                cur.wf(),
                frames_ok(cur.children@, self.path@.subrange(k as int, len as int)) || k
                    == len,
                cur_node(self.top@, self.path@) == (if k == len {
                    *cur
                } else {
                    cur_node(cur.children@, self.path@.subrange(k as int, len as int))
                }),
            decreases len - k,
        {
            proof {
                lemma_kids_model(cur.children@);
                assert(self.path@.subrange(k as int, len as int)[0] == self.path@[k as int]);
                assert(self.path@.subrange(k as int, len as int).subrange(
                    1,
                    (len - k) as int,
                ) =~= self.path@.subrange(k + 1, len as int));
            }
            cur = cur.child(self.path[k].pos);
            k = k + 1;
        }
        cur
    }

    /// Returns the current visit, or `None` if the traversal is finished
    /// or the cursor has run past the available siblings.
    pub fn get(&self) -> (r: Option<Visit<T>>)
        requires
            walk_wf(self.wmodel()),
        ensures
            r is Some <==> (at_node(self.wmodel()) && !(self.kind is Idle)),
            r is Some ==> visit_node(r.unwrap()) == cur_node(self.top@, self.path@) && (match r
                .unwrap() {
                Visit::Begin(_) => self.kind is Begin,
                Visit::End(_) => self.kind is End,
                Visit::Leaf(_) => self.kind is Leaf,
            }),
    {
        if self.path.len() == 0 {
            return None;
        }
        let f = self.path[self.path.len() - 1];
        if f.pos >= f.limit {
            return None;
        }
        let node = self.node_at();
        match self.kind {
            Kind::Idle => None,
            Kind::Begin => Some(Visit::Begin(node)),
            Kind::End => Some(Visit::End(node)),
            Kind::Leaf => Some(Visit::Leaf(node)),
        }
    }

    /// The `Up` phase of the transition table.
    fn go_up(&mut self)
        requires
            walk_wf(old(self).wmodel()),
            old(self).path@.len() > 0,
        ensures
            final(self).wmodel() == step_up(old(self).wmodel()),
            walk_wf(final(self).wmodel()),
            final(self).top == old(self).top,
    {
        self.path.pop();
        if self.path.len() > 0 {
            self.dir = Dir::Right;
            self.kind = Kind::End;
        } else {
            self.dir = Dir::Down;
            self.kind = Kind::Idle;
        }
        proof {
            lemma_frames_ok_prefix(self.top@, old(self).path@, self.path@.len() as int);
            assert(self.path@ =~= old(self).path@.subrange(0, self.path@.len() as int));
            if self.path@.len() > 0 {
                lemma_frames_interior_strict(
                    self.top@,
                    old(self).path@,
                    self.path@.len() - 1,
                );
                lemma_frame_limit_ge1(
                    self.top@,
                    old(self).path@,
                    old(self).path@.len() - 1,
                );
                assert(old(self).path@[self.path@.len() as int].limit >= 1);
            }
        }
    }

    /// The `Right` phase of the transition table.
    fn go_right(&mut self)
        requires
            walk_wf(old(self).wmodel()),
            old(self).path@.len() > 0,
            at_node(old(self).wmodel()),
        ensures
            final(self).wmodel() == step_right(old(self).wmodel()),
            walk_wf(final(self).wmodel()),
            final(self).top == old(self).top,
    {
        let len = self.path.len();
        let f = self.path[len - 1];
        if f.pos + 1 >= f.limit {
            proof {
                assert(step_right(old(self).wmodel()) == step_up(old(self).wmodel()));
            }
            self.go_up();
        } else {
            *vstd::std_specs::vec::vec_index_mut(&mut self.path, len - 1) = Frame {
                pos: f.pos + 1,
                limit: f.limit,
            };
            proof {
                lemma_frames_ok_repos(
                    self.top@,
                    old(self).path@,
                    (f.pos + 1) as usize,
                );
                assert(self.path@.last() == Frame { pos: (f.pos + 1) as usize, limit: f.limit });
            }
            let node = self.node_at();
            if node.has_no_child() {
                self.kind = Kind::Leaf;
                self.dir = Dir::Right;
            } else {
                self.kind = Kind::Begin;
                self.dir = Dir::Down;
            }
            proof {
                lemma_kids_model(node.children@);
            }
        }
    }

    /// The `Down` phase of the transition table.
    fn go_down(&mut self)
        requires
            walk_wf(old(self).wmodel()),
            old(self).dir is Down,
        ensures
            final(self).wmodel() == step_down(old(self).wmodel()),
            walk_wf(final(self).wmodel()),
            final(self).top == old(self).top,
    {
        if self.path.len() == 0 {
            return;
        }
        let node_deg = {
            let node = self.node_at();
            proof {
                lemma_kids_model(node.children@);
            }
            node.degree()
        };
        if node_deg == 0 {
            self.dir = Dir::Right;
            self.go_right();
        } else {
            let ghost m0 = self.wmodel();
            let first_leaf = {
                let node = self.node_at();
                proof {
                    lemma_kids_model(node.children@);
                    lemma_kids_model(node.children@[0].children@);
                }
                node.child(0).has_no_child()
            };
            self.path.push(Frame { pos: 0, limit: node_deg });
            self.kind = if first_leaf {
                Kind::Leaf
            } else {
                Kind::Begin
            };
            self.dir = Dir::Down;
            proof {
                lemma_frames_ok_push(self.top@, old(self).path@, node_deg);
                lemma_cur_node_push(self.top@, old(self).path@, 0, node_deg);
                lemma_kids_model(cur_node(self.top@, old(self).path@).children@);
            }
        }
    }

    /// Advances the cursor one step of the depth-first traversal.
    pub fn forward(&mut self)
        requires
            walk_wf(old(self).wmodel()),
        ensures
            final(self).wmodel() == step(old(self).wmodel()),
            walk_wf(final(self).wmodel()),
            final(self).top == old(self).top,
    {
        match self.dir {
            Dir::Up => self.go_up(),
            Dir::Down => self.go_down(),
            Dir::Right => self.go_right(),
        }
    }

    /// Advances the cursor and returns the newly visited node.
    pub fn next(&mut self) -> (r: Option<Visit<T>>)
        requires
            walk_wf(old(self).wmodel()),
        ensures
            final(self).wmodel() == step(old(self).wmodel()),
            walk_wf(final(self).wmodel()),
            final(self).top == old(self).top,
            r is Some <==> (at_node(final(self).wmodel()) && !(final(self).kind is Idle)),
            r is Some ==> visit_node(r.unwrap()) == cur_node(final(self).top@, final(self).path@)
                && (match r.unwrap() {
                Visit::Begin(_) => final(self).kind is Begin,
                Visit::End(_) => final(self).kind is End,
                Visit::Leaf(_) => final(self).kind is Leaf,
            }),
    {
        self.forward();
        self.get()
    }

    /// Pops to the parent and reports its `End` visit, or finishes the
    /// traversal if there is no parent.
    pub fn to_parent(&mut self) -> (r: Option<Visit<T>>)
        requires
            walk_wf(old(self).wmodel()),
        ensures
            walk_wf(final(self).wmodel()),
            final(self).top == old(self).top,
            old(self).path@.len() > 0 ==> final(self).wmodel() == step_up(old(self).wmodel()),
            old(self).path@.len() == 0 ==> final(self).wmodel() == old(self).wmodel(),
            r is Some <==> old(self).path@.len() > 1,
            r is Some ==> visit_node(r.unwrap()) == cur_node(final(self).top@, final(self).path@)
                && r.unwrap() is End,
    {
        if self.path.len() == 0 {
            return None;
        }
        self.go_up();
        self.get()
    }

    /// Reference of the parent of the current node, or `None`.
    pub fn get_parent(&self) -> (r: Option<&Node<T>>)
        requires
            walk_wf(self.wmodel()),
        ensures
            r is Some <==> self.path@.len() >= 2,
            r is Some ==> *r.unwrap() == cur_node(self.top@, self.path@.drop_last()),
    {
        if self.path.len() < 2 {
            return None;
        }
        let mut cur = &self.top[self.path[0].pos];
        let mut k: usize = 1;
        let len = self.path.len() - 1;
        proof {
            lemma_frames_ok_prefix(self.top@, self.path@, len as int);
        }
        while k < len
            invariant
                1 <= k <= len,
                len == self.path@.len() - 1,
                walk_wf(self.wmodel()),
                frames_ok(self.top@, self.path@.drop_last()),
                self.path@.drop_last().len() == len,
                cur.wf(),
                frames_ok(cur.children@, self.path@.drop_last().subrange(k as int, len as int))
                    || k == len,
                cur_node(self.top@, self.path@.drop_last()) == (if k == len {
                    *cur
                } else {
                    cur_node(
                        cur.children@,
                        self.path@.drop_last().subrange(k as int, len as int),
                    )
                }),
            decreases len - k,
        {
            proof {
                lemma_kids_model(cur.children@);
                lemma_frames_interior_strict(self.top@, self.path@, k as int);
                assert(self.path@.drop_last().subrange(k as int, len as int)[0]
                    == self.path@[k as int]);
                assert(self.path@.drop_last().subrange(k as int, len as int).subrange(
                    1,
                    (len - k) as int,
                ) =~= self.path@.drop_last().subrange(k + 1, len as int));
            }
            cur = cur.child(self.path[k].pos);
            k = k + 1;
        }
        Some(cur)
    }

    /// Re-enters the traversal from its starting point after it has
    /// finished; no effect while it is still under way.
    pub fn revisit(&mut self)
        requires
            walk_wf(old(self).wmodel()),
        ensures
            walk_wf(final(self).wmodel()),
            final(self).top == old(self).top,
            old(self).top@.len() == 0 ==> *final(self) == *old(self),
            old(self).top@.len() > 0 && old(self).path@.len() == 0 ==> final(self).path@
                == seq![Frame { pos: 0, limit: old(self).top@.len() as usize }]
                && final(self).dir is Down && final(self).kind == classify(old(self).top@[0]),
            old(self).top@.len() > 0 && old(self).path@.len() > 0 && at_node(
                old(self).wmodel(),
            ) ==> final(self).path@ == old(self).path@ && final(self).dir is Down
                && final(self).kind == classify(cur_node(old(self).top@, old(self).path@)),
            old(self).top@.len() > 0 && old(self).path@.len() > 0 && !at_node(
                old(self).wmodel(),
            ) ==> *final(self) == *old(self),
    {
        let len = self.top.len();
        if len == 0 {
            return;
        }
        if self.path.len() == 0 {
            let kind = if self.top[0].children.len() == 0 {
                Kind::Leaf
            } else {
                Kind::Begin
            };
            self.path.push(Frame { pos: 0, limit: len });
            self.kind = kind;
            self.dir = Dir::Down;
            return;
        }
        let f = self.path[self.path.len() - 1];
        if f.pos >= f.limit {
            return;
        }
        let node_leaf = {
            let node = self.node_at();
            proof {
                lemma_kids_model(node.children@);
            }
            node.has_no_child()
        };
        self.kind = if node_leaf {
            Kind::Leaf
        } else {
            Kind::Begin
        };
        self.dir = Dir::Down;
    }

    /// Moves to the `n`-th next sibling (`n == 0` re-reports the current
    /// node) and returns its visit; runs past the bound, turns upward and
    /// yields `None` if there are not that many siblings left.
    pub fn to_sib(&mut self, n: usize) -> (r: Option<Visit<T>>)
        requires
            walk_wf(old(self).wmodel()),
        ensures
            walk_wf(final(self).wmodel()),
            final(self).top == old(self).top,
            old(self).path@.len() == 0 ==> r is None && *final(self) == *old(self),
            old(self).path@.len() > 0 && !at_node(old(self).wmodel()) ==> r is None
                && *final(self) == *old(self),
            old(self).path@.len() > 0 && at_node(old(self).wmodel()) ==> {
                let f = old(self).path@.last();
                if f.pos + n < f.limit {
                    r is Some && final(self).path@ == old(self).path@.update(
                        old(self).path@.len() - 1,
                        Frame { pos: (f.pos + n) as usize, limit: f.limit },
                    ) && visit_node(r.unwrap()) == cur_node(
                        final(self).top@,
                        final(self).path@,
                    ) && final(self).kind == classify(
                        cur_node(final(self).top@, final(self).path@),
                    ) && (final(self).kind is Begin ==> final(self).dir is Down)
                        && (final(self).kind is Leaf ==> final(self).dir == old(self).dir)
                        && (match r.unwrap() {
                        Visit::Begin(_) => final(self).kind is Begin,
                        Visit::End(_) => final(self).kind is End,
                        Visit::Leaf(_) => final(self).kind is Leaf,
                    })
                } else {
                    r is None && final(self).path@ == old(self).path@.update(
                        old(self).path@.len() - 1,
                        Frame { pos: f.limit, limit: f.limit },
                    ) && final(self).dir is Up && final(self).kind == old(self).kind
                }
            },
    {
        if self.path.len() == 0 {
            return None;
        }
        let len = self.path.len();
        let f = self.path[len - 1];
        if f.pos >= f.limit {
            // Already past the last sibling: stay there, headed upward.
            self.dir = Dir::Up;
            return None;
        }
        if n >= f.limit - f.pos {
            // Running past the last sibling exhausts the frame.
            *vstd::std_specs::vec::vec_index_mut(&mut self.path, len - 1) = Frame {
                pos: f.limit,
                limit: f.limit,
            };
            self.dir = Dir::Up;
            proof {
                lemma_frames_ok_repos(self.top@, old(self).path@, old(self).path@.last().limit);
            }
            return None;
        }
        *vstd::std_specs::vec::vec_index_mut(&mut self.path, len - 1) = Frame {
            pos: f.pos + n,
            limit: f.limit,
        };
        proof {
            lemma_frames_ok_repos(self.top@, old(self).path@, (f.pos + n) as usize);
        }
        let node_leaf = {
            let node = self.node_at();
            proof {
                lemma_kids_model(node.children@);
            }
            node.has_no_child()
        };
        if node_leaf {
            self.kind = Kind::Leaf;
        } else {
            self.kind = Kind::Begin;
            self.dir = Dir::Down;
        }
        self.get()
    }

    /// Descends to the `n`-th child of the current node and returns its
    /// visit, or `None` if the node has no children or fewer than `n + 1`
    /// of them (the cursor then rests exhausted among the children,
    /// headed upward).
    pub fn to_child(&mut self, n: usize) -> (r: Option<Visit<T>>)
        requires
            walk_wf(old(self).wmodel()),
        ensures
            walk_wf(final(self).wmodel()),
            final(self).top == old(self).top,
            !(at_node(old(self).wmodel()) && !(old(self).kind is Idle)) ==> r is None,
            at_node(old(self).wmodel()) && !(old(self).kind is Idle) && n < cur_node(
                old(self).top@,
                old(self).path@,
            ).children@.len() ==> r is Some && final(self).path@ == old(self).path@.push(
                Frame {
                    pos: n,
                    limit: cur_node(old(self).top@, old(self).path@).children@.len() as usize,
                },
            ) && visit_node(r.unwrap()) == cur_node(old(self).top@, old(self).path@).children@[
                n as int
            ] && visit_node(r.unwrap()) == cur_node(final(self).top@, final(self).path@)
                && final(self).kind == classify(cur_node(final(self).top@, final(self).path@))
                && (final(self).kind is Begin ==> final(self).dir is Down) && (match r.unwrap() {
                Visit::Begin(_) => final(self).kind is Begin,
                Visit::End(_) => final(self).kind is End,
                Visit::Leaf(_) => final(self).kind is Leaf,
            }),
            at_node(old(self).wmodel()) && !(old(self).kind is Idle) && cur_node(
                old(self).top@,
                old(self).path@,
            ).children@.len() == 0 ==> r is None && final(self).dir is Right
                && final(self).path@ == old(self).path@,
            at_node(old(self).wmodel()) && !(old(self).kind is Idle) && cur_node(
                old(self).top@,
                old(self).path@,
            ).children@.len() > 0 && n >= cur_node(
                old(self).top@,
                old(self).path@,
            ).children@.len() ==> r is None && final(self).path@ == old(self).path@.push(
                Frame {
                    pos: cur_node(old(self).top@, old(self).path@).children@.len() as usize,
                    limit: cur_node(old(self).top@, old(self).path@).children@.len() as usize,
                },
            ) && final(self).dir is Up,
    {
        if self.path.len() == 0 {
            return None;
        }
        let len = self.path.len();
        let f = self.path[len - 1];
        if f.pos >= f.limit {
            return None;
        }
        let node_deg = {
            let node = self.node_at();
            proof {
                lemma_kids_model(node.children@);
            }
            node.degree()
        };
        if node_deg == 0 {
            self.dir = Dir::Right;
            return None;
        }
        let first_leaf = {
            let node = self.node_at();
            proof {
                lemma_kids_model(node.children@);
                lemma_kids_model(node.children@[0].children@);
            }
            node.child(0).has_no_child()
        };
        self.path.push(Frame { pos: 0, limit: node_deg });
        self.kind = if first_leaf {
            Kind::Leaf
        } else {
            Kind::Begin
        };
        proof {
            lemma_frames_ok_push(self.top@, old(self).path@, node_deg);
            lemma_cur_node_push(self.top@, old(self).path@, 0, node_deg);
            lemma_kids_model(cur_node(self.top@, old(self).path@).children@);
        }
        proof {
            if n < node_deg {
                lemma_cur_node_push(self.top@, old(self).path@, n, node_deg);
            }
            lemma_push_then_update(
                old(self).path@,
                Frame { pos: 0, limit: node_deg },
                Frame { pos: n, limit: node_deg },
            );
            lemma_push_then_update(
                old(self).path@,
                Frame { pos: 0, limit: node_deg },
                Frame { pos: node_deg, limit: node_deg },
            );
        }
        self.to_sib(n)
    }
}

/// Depth-first cursor over a tree./// Depth-first cursor over a tree.  It owns the tree for the session and
/// hands it back when the session ends.
pub struct TreeWalk<T> {
    pub walk: Walk<T>,
}

impl<T> TreeWalk<T> {
    /// Starts a depth-first session over the tree.
    pub fn from_tree(tree: Tree<T>) -> (w: TreeWalk<T>)
        requires
            tree.wf(),
        ensures
            walk_wf(w.walk.wmodel()),
            w.walk.top@ == seq![tree.root],
            w.walk.path@ == seq![Frame { pos: 0, limit: 1 }],
            w.walk.kind == classify(tree.root),
            w.walk.dir is Down,
    {
        let mut top: Vec<Node<T>> = Vec::new();
        top.push(tree.root);
        TreeWalk { walk: Walk::on_forest(top) }
    }

    /// Ends the session and returns the tree.
    pub fn into_tree(self) -> (t: Tree<T>)
        requires
            self.walk.top@.len() == 1,
        ensures
            t.root == self.walk.top@[0],
    {
        let mut top = self.walk.top;
        let root = top.pop().unwrap();
        Tree { root }
    }

    /// Returns the current visit, or `None` when the traversal is over.
    pub fn get(&self) -> (r: Option<Visit<T>>)
        requires
            walk_wf(self.walk.wmodel()),
        ensures
            r is Some <==> (at_node(self.walk.wmodel()) && !(self.walk.kind is Idle)),
            r is Some ==> visit_node(r.unwrap()) == cur_node(self.walk.top@, self.walk.path@)
                && (match r.unwrap() {
                Visit::Begin(_) => self.walk.kind is Begin,
                Visit::End(_) => self.walk.kind is End,
                Visit::Leaf(_) => self.walk.kind is Leaf,
            }),
    {
        self.walk.get()
    }

    /// Advances one step of the traversal.
    pub fn forward(&mut self)
        requires
            walk_wf(old(self).walk.wmodel()),
        ensures
            final(self).walk.wmodel() == step(old(self).walk.wmodel()),
            walk_wf(final(self).walk.wmodel()),
            final(self).walk.top == old(self).walk.top,
    {
        self.walk.forward();
    }

    /// Advances and returns the newly visited node.
    pub fn next(&mut self) -> (r: Option<Visit<T>>)
        requires
            walk_wf(old(self).walk.wmodel()),
        ensures
            final(self).walk.wmodel() == step(old(self).walk.wmodel()),
            walk_wf(final(self).walk.wmodel()),
            final(self).walk.top == old(self).walk.top,
            r is Some <==> (at_node(final(self).walk.wmodel()) && !(final(self).walk.kind
                is Idle)),
            r is Some ==> visit_node(r.unwrap()) == cur_node(
                final(self).walk.top@,
                final(self).walk.path@,
            ) && (match r.unwrap() {
                Visit::Begin(_) => final(self).walk.kind is Begin,
                Visit::End(_) => final(self).walk.kind is End,
                Visit::Leaf(_) => final(self).walk.kind is Leaf,
            }),
    {
        self.walk.next()
    }

    /// Pops to the parent and reports its `End` visit.
    pub fn to_parent(&mut self) -> (r: Option<Visit<T>>)
        requires
            walk_wf(old(self).walk.wmodel()),
        ensures
            walk_wf(final(self).walk.wmodel()),
            final(self).walk.top == old(self).walk.top,
            old(self).walk.path@.len() > 0 ==> final(self).walk.wmodel() == step_up(
                old(self).walk.wmodel(),
            ),
            old(self).walk.path@.len() == 0 ==> final(self).walk.wmodel()
                == old(self).walk.wmodel(),
            r is Some <==> old(self).walk.path@.len() > 1,
            r is Some ==> visit_node(r.unwrap()) == cur_node(
                final(self).walk.top@,
                final(self).walk.path@,
            ) && r.unwrap() is End,
    {
        self.walk.to_parent()
    }

    /// Reference of the parent of the current node.
    pub fn get_parent(&self) -> (r: Option<&Node<T>>)
        requires
            walk_wf(self.walk.wmodel()),
        ensures
            r is Some <==> self.walk.path@.len() >= 2,
            r is Some ==> *r.unwrap() == cur_node(
                self.walk.top@,
                self.walk.path@.drop_last(),
            ),
    {
        self.walk.get_parent()
    }

    /// Descends to the `n`-th child of the current node and returns its
    /// visit, or `None` if the node has no children or fewer than `n + 1`
    /// of them.
    pub fn to_child(&mut self, n: usize) -> (r: Option<Visit<T>>)
        requires
            walk_wf(old(self).walk.wmodel()),
        ensures
            walk_wf(final(self).walk.wmodel()),
            final(self).walk.top == old(self).walk.top,
            !(at_node(old(self).walk.wmodel()) && !(old(self).walk.kind is Idle)) ==> r
                is None,
            at_node(old(self).walk.wmodel()) && !(old(self).walk.kind is Idle) && n
                < cur_node(old(self).walk.top@, old(self).walk.path@).children@.len() ==> r
                is Some && final(self).walk.path@ == old(self).walk.path@.push(
                Frame {
                    pos: n,
                    limit: cur_node(
                        old(self).walk.top@,
                        old(self).walk.path@,
                    ).children@.len() as usize,
                },
            ) && visit_node(r.unwrap()) == cur_node(
                old(self).walk.top@,
                old(self).walk.path@,
            ).children@[n as int] && visit_node(r.unwrap()) == cur_node(
                final(self).walk.top@,
                final(self).walk.path@,
            ) && final(self).walk.kind == classify(
                cur_node(final(self).walk.top@, final(self).walk.path@),
            ) && (match r.unwrap() {
                Visit::Begin(_) => final(self).walk.kind is Begin,
                Visit::End(_) => final(self).walk.kind is End,
                Visit::Leaf(_) => final(self).walk.kind is Leaf,
            }),
            at_node(old(self).walk.wmodel()) && !(old(self).walk.kind is Idle) && cur_node(
                old(self).walk.top@,
                old(self).walk.path@,
            ).children@.len() == 0 ==> r is None && final(self).walk.dir is Right
                && final(self).walk.path@ == old(self).walk.path@,
            at_node(old(self).walk.wmodel()) && !(old(self).walk.kind is Idle) && cur_node(
                old(self).walk.top@,
                old(self).walk.path@,
            ).children@.len() > 0 && n >= cur_node(
                old(self).walk.top@,
                old(self).walk.path@,
            ).children@.len() ==> r is None && final(self).walk.path@
                == old(self).walk.path@.push(
                Frame {
                    pos: cur_node(
                        old(self).walk.top@,
                        old(self).walk.path@,
                    ).children@.len() as usize,
                    limit: cur_node(
                        old(self).walk.top@,
                        old(self).walk.path@,
                    ).children@.len() as usize,
                },
            ) && final(self).walk.dir is Up,
    {
        self.walk.to_child(n)
    }

    /// Moves to the `n`-th next sibling (`n == 0` re-reports the current
    /// node) and returns its visit; runs past the bound, turns upward and
    /// yields `None` if there are not that many siblings left.
    pub fn to_sib(&mut self, n: usize) -> (r: Option<Visit<T>>)
        requires
            walk_wf(old(self).walk.wmodel()),
        ensures
            walk_wf(final(self).walk.wmodel()),
            final(self).walk.top == old(self).walk.top,
            old(self).walk.path@.len() == 0 ==> r is None && final(self).walk
                == old(self).walk,
            old(self).walk.path@.len() > 0 && !at_node(old(self).walk.wmodel()) ==> r
                is None && final(self).walk == old(self).walk,
            old(self).walk.path@.len() > 0 && at_node(old(self).walk.wmodel()) ==> {
                let f = old(self).walk.path@.last();
                if f.pos + n < f.limit {
                    r is Some && final(self).walk.path@ == old(self).walk.path@.update(
                        old(self).walk.path@.len() - 1,
                        Frame { pos: (f.pos + n) as usize, limit: f.limit },
                    ) && visit_node(r.unwrap()) == cur_node(
                        final(self).walk.top@,
                        final(self).walk.path@,
                    ) && final(self).walk.kind == classify(
                        cur_node(final(self).walk.top@, final(self).walk.path@),
                    ) && (match r.unwrap() {
                        Visit::Begin(_) => final(self).walk.kind is Begin,
                        Visit::End(_) => final(self).walk.kind is End,
                        Visit::Leaf(_) => final(self).walk.kind is Leaf,
                    })
                } else {
                    r is None && final(self).walk.path@ == old(self).walk.path@.update(
                        old(self).walk.path@.len() - 1,
                        Frame { pos: f.limit, limit: f.limit },
                    ) && final(self).walk.dir is Up && final(self).walk.kind
                        == old(self).walk.kind
                }
            },
    {
        self.walk.to_sib(n)
    }

    /// Re-enters the traversal from its starting point after it has
    /// finished, and re-enters a subtree whose `End` was reached; no
    /// effect while a `Begin` or `Leaf` visit is current.
    pub fn revisit(&mut self)
        requires
            walk_wf(old(self).walk.wmodel()),
        ensures
            walk_wf(final(self).walk.wmodel()),
            final(self).walk.top == old(self).walk.top,
            old(self).walk.top@.len() == 0 ==> final(self).walk == old(self).walk,
            old(self).walk.top@.len() > 0 && old(self).walk.path@.len() == 0
                ==> final(self).walk.path@ == seq![
                Frame { pos: 0, limit: old(self).walk.top@.len() as usize },
            ] && final(self).walk.dir is Down && final(self).walk.kind == classify(
                old(self).walk.top@[0],
            ),
            old(self).walk.top@.len() > 0 && old(self).walk.path@.len() > 0 && at_node(
                old(self).walk.wmodel(),
            ) ==> final(self).walk.path@ == old(self).walk.path@ && final(self).walk.dir
                is Down && final(self).walk.kind == classify(
                cur_node(old(self).walk.top@, old(self).walk.path@),
            ),
            old(self).walk.top@.len() > 0 && old(self).walk.path@.len() > 0 && !at_node(
                old(self).walk.wmodel(),
            ) ==> final(self).walk == old(self).walk,
    {
        self.walk.revisit();
    }
}

/// Depth-first cursor over a forest.  It owns the forest for the session
/// and hands it back when the session ends.
pub struct ForestWalk<T> {
    pub walk: Walk<T>,
    pub size: Size,
}

impl<T> ForestWalk<T> {
    /// Starts a depth-first session over the forest.
    pub fn from_forest(forest: Forest<T>) -> (w: ForestWalk<T>)
        requires
            forest.wf(),
        ensures
            walk_wf(w.walk.wmodel()),
            w.walk.top@ == forest.kids@,
            w.size == forest.size,
    {
        ForestWalk { walk: Walk::on_forest(forest.kids), size: forest.size }
    }

    /// Ends the session and returns the forest.
    pub fn into_forest(self) -> (f: Forest<T>)
        ensures
            f.kids == self.walk.top,
            f.size == self.size,
    {
        Forest { kids: self.walk.top, size: self.size }
    }

    /// Returns the current visit, or `None` when the traversal is over.
    pub fn get(&self) -> (r: Option<Visit<T>>)
        requires
            walk_wf(self.walk.wmodel()),
        ensures
            r is Some <==> (at_node(self.walk.wmodel()) && !(self.walk.kind is Idle)),
            r is Some ==> visit_node(r.unwrap()) == cur_node(self.walk.top@, self.walk.path@)
                && (match r.unwrap() {
                Visit::Begin(_) => self.walk.kind is Begin,
                Visit::End(_) => self.walk.kind is End,
                Visit::Leaf(_) => self.walk.kind is Leaf,
            }),
    {
        self.walk.get()
    }

    /// Advances one step of the traversal.
    pub fn forward(&mut self)
        requires
            walk_wf(old(self).walk.wmodel()),
        ensures
            final(self).walk.wmodel() == step(old(self).walk.wmodel()),
            walk_wf(final(self).walk.wmodel()),
            final(self).walk.top == old(self).walk.top,
            final(self).size == old(self).size,
    {
        self.walk.forward();
    }

    /// Advances and returns the newly visited node.
    pub fn next(&mut self) -> (r: Option<Visit<T>>)
        requires
            walk_wf(old(self).walk.wmodel()),
        ensures
            final(self).walk.wmodel() == step(old(self).walk.wmodel()),
            walk_wf(final(self).walk.wmodel()),
            final(self).walk.top == old(self).walk.top,
            final(self).size == old(self).size,
            r is Some <==> (at_node(final(self).walk.wmodel()) && !(final(self).walk.kind
                is Idle)),
            r is Some ==> visit_node(r.unwrap()) == cur_node(
                final(self).walk.top@,
                final(self).walk.path@,
            ) && (match r.unwrap() {
                Visit::Begin(_) => final(self).walk.kind is Begin,
                Visit::End(_) => final(self).walk.kind is End,
                Visit::Leaf(_) => final(self).walk.kind is Leaf,
            }),
    {
        self.walk.next()
    }

    /// Pops to the parent and reports its `End` visit.
    pub fn to_parent(&mut self) -> (r: Option<Visit<T>>)
        requires
            walk_wf(old(self).walk.wmodel()),
        ensures
            walk_wf(final(self).walk.wmodel()),
            final(self).walk.top == old(self).walk.top,
            final(self).size == old(self).size,
            old(self).walk.path@.len() > 0 ==> final(self).walk.wmodel() == step_up(
                old(self).walk.wmodel(),
            ),
            old(self).walk.path@.len() == 0 ==> final(self).walk.wmodel()
                == old(self).walk.wmodel(),
            r is Some <==> old(self).walk.path@.len() > 1,
            r is Some ==> visit_node(r.unwrap()) == cur_node(
                final(self).walk.top@,
                final(self).walk.path@,
            ) && r.unwrap() is End,
    {
        self.walk.to_parent()
    }

    /// Reference of the parent of the current node.
    pub fn get_parent(&self) -> (r: Option<&Node<T>>)
        requires
            walk_wf(self.walk.wmodel()),
        ensures
            r is Some <==> self.walk.path@.len() >= 2,
            r is Some ==> *r.unwrap() == cur_node(
                self.walk.top@,
                self.walk.path@.drop_last(),
            ),
    {
        self.walk.get_parent()
    }

    /// Descends to the `n`-th child of the current node and returns its
    /// visit, or `None` if the node has no children or fewer than `n + 1`
    /// of them.
    pub fn to_child(&mut self, n: usize) -> (r: Option<Visit<T>>)
        requires
            walk_wf(old(self).walk.wmodel()),
        ensures
            walk_wf(final(self).walk.wmodel()),
            final(self).walk.top == old(self).walk.top,
            final(self).size == old(self).size,
            !(at_node(old(self).walk.wmodel()) && !(old(self).walk.kind is Idle)) ==> r
                is None,
            at_node(old(self).walk.wmodel()) && !(old(self).walk.kind is Idle) && n
                < cur_node(old(self).walk.top@, old(self).walk.path@).children@.len() ==> r
                is Some && final(self).walk.path@ == old(self).walk.path@.push(
                Frame {
                    pos: n,
                    limit: cur_node(
                        old(self).walk.top@,
                        old(self).walk.path@,
                    ).children@.len() as usize,
                },
            ) && visit_node(r.unwrap()) == cur_node(
                old(self).walk.top@,
                old(self).walk.path@,
            ).children@[n as int] && visit_node(r.unwrap()) == cur_node(
                final(self).walk.top@,
                final(self).walk.path@,
            ) && final(self).walk.kind == classify(
                cur_node(final(self).walk.top@, final(self).walk.path@),
            ) && (match r.unwrap() {
                Visit::Begin(_) => final(self).walk.kind is Begin,
                Visit::End(_) => final(self).walk.kind is End,
                Visit::Leaf(_) => final(self).walk.kind is Leaf,
            }),
            at_node(old(self).walk.wmodel()) && !(old(self).walk.kind is Idle) && cur_node(
                old(self).walk.top@,
                old(self).walk.path@,
            ).children@.len() == 0 ==> r is None && final(self).walk.dir is Right
                && final(self).walk.path@ == old(self).walk.path@,
            at_node(old(self).walk.wmodel()) && !(old(self).walk.kind is Idle) && cur_node(
                old(self).walk.top@,
                old(self).walk.path@,
            ).children@.len() > 0 && n >= cur_node(
                old(self).walk.top@,
                old(self).walk.path@,
            ).children@.len() ==> r is None && final(self).walk.path@
                == old(self).walk.path@.push(
                Frame {
                    pos: cur_node(
                        old(self).walk.top@,
                        old(self).walk.path@,
                    ).children@.len() as usize,
                    limit: cur_node(
                        old(self).walk.top@,
                        old(self).walk.path@,
                    ).children@.len() as usize,
                },
            ) && final(self).walk.dir is Up,
    {
        self.walk.to_child(n)
    }

    /// Moves to the `n`-th next sibling (`n == 0` re-reports the current
    /// node) and returns its visit; runs past the bound, turns upward and
    /// yields `None` if there are not that many siblings left.
    pub fn to_sib(&mut self, n: usize) -> (r: Option<Visit<T>>)
        requires
            walk_wf(old(self).walk.wmodel()),
        ensures
            walk_wf(final(self).walk.wmodel()),
            final(self).walk.top == old(self).walk.top,
            final(self).size == old(self).size,
            old(self).walk.path@.len() == 0 ==> r is None && final(self).walk
                == old(self).walk,
            old(self).walk.path@.len() > 0 && !at_node(old(self).walk.wmodel()) ==> r
                is None && final(self).walk == old(self).walk,
            old(self).walk.path@.len() > 0 && at_node(old(self).walk.wmodel()) ==> {
                let f = old(self).walk.path@.last();
                if f.pos + n < f.limit {
                    r is Some && final(self).walk.path@ == old(self).walk.path@.update(
                        old(self).walk.path@.len() - 1,
                        Frame { pos: (f.pos + n) as usize, limit: f.limit },
                    ) && visit_node(r.unwrap()) == cur_node(
                        final(self).walk.top@,
                        final(self).walk.path@,
                    ) && final(self).walk.kind == classify(
                        cur_node(final(self).walk.top@, final(self).walk.path@),
                    ) && (match r.unwrap() {
                        Visit::Begin(_) => final(self).walk.kind is Begin,
                        Visit::End(_) => final(self).walk.kind is End,
                        Visit::Leaf(_) => final(self).walk.kind is Leaf,
                    })
                } else {
                    r is None && final(self).walk.path@ == old(self).walk.path@.update(
                        old(self).walk.path@.len() - 1,
                        Frame { pos: f.limit, limit: f.limit },
                    ) && final(self).walk.dir is Up && final(self).walk.kind
                        == old(self).walk.kind
                }
            },
    {
        self.walk.to_sib(n)
    }

    /// Re-enters the traversal from its starting point after it has
    /// finished, and re-enters a subtree whose `End` was reached; no
    /// effect while a `Begin` or `Leaf` visit is current.
    pub fn revisit(&mut self)
        requires
            walk_wf(old(self).walk.wmodel()),
        ensures
            walk_wf(final(self).walk.wmodel()),
            final(self).walk.top == old(self).walk.top,
            final(self).size == old(self).size,
            old(self).walk.top@.len() == 0 ==> final(self).walk == old(self).walk,
            old(self).walk.top@.len() > 0 && old(self).walk.path@.len() == 0
                ==> final(self).walk.path@ == seq![
                Frame { pos: 0, limit: old(self).walk.top@.len() as usize },
            ] && final(self).walk.dir is Down && final(self).walk.kind == classify(
                old(self).walk.top@[0],
            ),
            old(self).walk.top@.len() > 0 && old(self).walk.path@.len() > 0 && at_node(
                old(self).walk.wmodel(),
            ) ==> final(self).walk.path@ == old(self).walk.path@ && final(self).walk.dir
                is Down && final(self).walk.kind == classify(
                cur_node(old(self).walk.top@, old(self).walk.path@),
            ),
            old(self).walk.top@.len() > 0 && old(self).walk.path@.len() > 0 && !at_node(
                old(self).walk.wmodel(),
            ) ==> final(self).walk == old(self).walk,
    {
        self.walk.revisit();
    }
}

/// Replacing the last frame right after pushing it is one push.
proof fn lemma_push_then_update(s: Seq<Frame>, a: Frame, b: Frame)
    ensures
        s.push(a).update(s.len() as int, b) == s.push(b),
{
    assert(s.push(a).update(s.len() as int, b) =~= s.push(b));
}

/// A prefix of a valid path is valid, and the frame that follows the
/// prefix fits under the node the prefix selects.
proof fn lemma_frames_ok_prefix<T>(top: Seq<Node<T>>, path: Seq<Frame>, k: int)
    requires
        frames_ok(top, path),
        0 <= k <= path.len(),
    ensures
        frames_ok(top, path.subrange(0, k)),
        0 < k < path.len() ==> path[k].limit <= cur_node(
            top,
            path.subrange(0, k),
        ).children@.len(),
    decreases path.len(),
{
    if k > 0 && path.len() > 1 {
        let f = path[0];
        let sub = path.subrange(1, path.len() as int);
        if k > 1 {
            lemma_frames_ok_prefix(top[f.pos as int].children@, sub, k - 1);
            assert(path.subrange(0, k).subrange(1, k) =~= sub.subrange(0, k - 1));
            assert(path.subrange(0, k)[0] == f);
            if k < path.len() {
                assert(sub[k - 1] == path[k]);
                assert(cur_node(top, path.subrange(0, k)) == cur_node(
                    top[f.pos as int].children@,
                    sub.subrange(0, k - 1),
                ));
                assert(sub[k - 1].limit <= cur_node(
                    top[f.pos as int].children@,
                    sub.subrange(0, k - 1),
                ).children@.len());
            }
        } else {
            assert(path.subrange(0, 1)[0] == f);
            assert(cur_node(top, path.subrange(0, 1)) == top[f.pos as int]);
            assert(sub[0] == path[1]);
            assert(frames_ok(top[f.pos as int].children@, sub));
            assert(1 <= sub[0].limit <= top[f.pos as int].children@.len());
        }
    }
}

/// Every frame of a valid path that is not the last one rests strictly
/// within its bound.
proof fn lemma_frames_interior_strict<T>(top: Seq<Node<T>>, path: Seq<Frame>, k: int)
    requires
        frames_ok(top, path),
        0 <= k < path.len() - 1,
    ensures
        path[k].pos < path[k].limit,
    decreases path.len(),
{
    if k > 0 {
        let f = path[0];
        let sub = path.subrange(1, path.len() as int);
        lemma_frames_interior_strict(top[f.pos as int].children@, sub, k - 1);
        assert(sub[k - 1] == path[k]);
    }
}

/// Every frame of a valid path has a bound of at least one.
proof fn lemma_frame_limit_ge1<T>(top: Seq<Node<T>>, path: Seq<Frame>, k: int)
    requires
        frames_ok(top, path),
        0 <= k < path.len(),
    ensures
        path[k].limit >= 1,
    decreases path.len(),
{
    if k > 0 {
        let f = path[0];
        let sub = path.subrange(1, path.len() as int);
        lemma_frame_limit_ge1(top[f.pos as int].children@, sub, k - 1);
        assert(sub[k - 1] == path[k]);
    }
}

/// Re-positioning the last frame within bounds keeps the path valid, and
/// the other frames keep selecting the same nodes.
proof fn lemma_frames_ok_repos<T>(top: Seq<Node<T>>, path: Seq<Frame>, pos: usize)
    requires
        frames_ok(top, path),
        path.len() > 0,
        pos <= path.last().limit,
    ensures
        frames_ok(
            top,
            path.update(path.len() - 1, Frame { pos, limit: path.last().limit }),
        ),
        pos < path.last().limit ==> cur_node(
            top,
            path.update(path.len() - 1, Frame { pos, limit: path.last().limit }),
        ) == (if path.len() == 1 {
            top[pos as int]
        } else {
            cur_node(top, path.drop_last()).children@[pos as int]
        }),
    decreases path.len(),
{
    let path2 = path.update(path.len() - 1, Frame { pos, limit: path.last().limit });
    if path.len() == 1 {
        assert(path2[0] == Frame { pos, limit: path.last().limit });
    } else {
        let f = path[0];
        lemma_frames_ok_repos(
            top[f.pos as int].children@,
            path.subrange(1, path.len() as int),
            pos,
        );
        assert(path2[0] == f);
        assert(path2.subrange(1, path2.len() as int) =~= path.subrange(
            1,
            path.len() as int,
        ).update(path.len() - 2, Frame { pos, limit: path.last().limit }));
        assert(path.subrange(1, path.len() as int).drop_last() =~= path.drop_last().subrange(
            1,
            path.len() - 1,
        ));
        if path.len() >= 2 && pos < path.last().limit {
            assert(path.drop_last()[0] == f);
            if path.len() == 2 {
                assert(cur_node(top, path.drop_last()) == top[f.pos as int]);
            }
        }
    }
}

/// Pushing a child frame keeps the path valid.
proof fn lemma_frames_ok_push<T>(top: Seq<Node<T>>, path: Seq<Frame>, deg: usize)
    requires
        frames_ok(top, path),
        path.len() > 0,
        path.last().pos < path.last().limit,
        deg == cur_node(top, path).children@.len(),
        deg > 0,
    ensures
        frames_ok(top, path.push(Frame { pos: 0, limit: deg })),
    decreases path.len(),
{
    let path2 = path.push(Frame { pos: 0, limit: deg });
    if path.len() == 1 {
        assert(path2[0] == path[0]);
        assert(cur_node(top, path) == top[path[0].pos as int]);
        assert(path2.subrange(1, 2) =~= seq![Frame { pos: 0, limit: deg }]);
        assert(path2.subrange(1, 2)[0] == Frame { pos: 0, limit: deg });
        assert(path2.len() == 2);
        assert(path2[0].pos < path2[0].limit);
        assert(1 <= path2[0].limit <= top.len());
        assert(path2.subrange(1, 2).len() == 1);
        assert(frames_ok(top[path2[0].pos as int].children@, path2.subrange(1, 2)));
    } else {
        let f = path[0];
        let sub = path.subrange(1, path.len() as int);
        assert(sub.last() == path.last());
        assert(cur_node(top, path) == cur_node(top[f.pos as int].children@, sub));
        lemma_frames_ok_push(top[f.pos as int].children@, sub, deg);
        assert(path2[0] == f);
        assert(path2.subrange(1, path2.len() as int) =~= sub.push(
            Frame { pos: 0, limit: deg },
        ));
        assert(frames_ok(top[path2[0].pos as int].children@, path2.subrange(
            1,
            path2.len() as int,
        )));
    }
}

/// The node selected after pushing a child frame is that child.
proof fn lemma_cur_node_push<T>(top: Seq<Node<T>>, path: Seq<Frame>, pos: usize, deg: usize)
    requires
        frames_ok(top, path),
        path.len() > 0,
        path.last().pos < path.last().limit,
        deg == cur_node(top, path).children@.len(),
        pos < deg,
    ensures
        cur_node(top, path.push(Frame { pos, limit: deg })) == cur_node(
            top,
            path,
        ).children@[pos as int],
    decreases path.len(),
{
    let path2 = path.push(Frame { pos, limit: deg });
    if path.len() == 1 {
        assert(path2[0] == path[0]);
        assert(cur_node(top, path) == top[path[0].pos as int]);
        assert(path2.subrange(1, 2) =~= seq![Frame { pos, limit: deg }]);
        assert(path2.subrange(1, 2)[0] == Frame { pos, limit: deg });
        assert(cur_node(top, path2) == cur_node(
            top[path2[0].pos as int].children@,
            path2.subrange(1, 2),
        ));
        assert(cur_node(top[path2[0].pos as int].children@, path2.subrange(1, 2))
            == top[path2[0].pos as int].children@[pos as int]);
    } else {
        let f = path[0];
        let sub = path.subrange(1, path.len() as int);
        assert(sub.last() == path.last());
        assert(cur_node(top, path) == cur_node(top[f.pos as int].children@, sub));
        lemma_cur_node_push(top[f.pos as int].children@, sub, pos, deg);
        assert(path2[0] == f);
        assert(path2.subrange(1, path2.len() as int) =~= sub.push(Frame { pos, limit: deg }));
        assert(cur_node(top, path2) == cur_node(
            top[path2[0].pos as int].children@,
            path2.subrange(1, path2.len() as int),
        ));
    }
}

} // verus!
