//! Bracket notation: printing trees and forests as text and parsing the
//! text back.
//!
//! A leaf prints as its payload, a branch as `data( child child )`, a
//! forest as `( tree tree )` and an empty forest as `()`.  The printer is
//! specified exactly by [`tree_text`] and [`forest_text`]; the parser is
//! a collaborator of the core that builds trees through the public
//! mutation operations alone.

use vstd::prelude::*;
use vstd::string::StrSliceExecFns;
use vstd::string::StringExecFns;

use crate::forest::Forest;
use crate::model::{forest_count, tree_count, TreeModel};
use crate::node::{kids_model, lemma_kids_model, Node};
use crate::tree::Tree;
use crate::Error;

verus! {

/// The bracket text of one tree.
pub open spec fn tree_text(t: TreeModel<String>) -> Seq<char>
    decreases t,
{
    if t.kids.len() == 0 {
        t.data@
    } else {
        t.data@ + seq!['(', ' '] + kids_text(t.kids) + seq![')']
    }
}

/// The bracket text of the trees of a forest, each one followed by one
/// space.
pub open spec fn kids_text(q: Seq<TreeModel<String>>) -> Seq<char>
    decreases q,
{
    if q.len() == 0 {
        Seq::empty()
    } else {
        tree_text(q[0]) + seq![' '] + kids_text(q.subrange(1, q.len() as int))
    }
}

/// The bracket text of a whole forest.
pub open spec fn forest_text(q: Seq<TreeModel<String>>) -> Seq<char> {
    if q.len() == 0 {
        seq!['(', ')']
    } else {
        seq!['(', ' '] + kids_text(q) + seq![')']
    }
}

/// Splitting a forest's text at its last tree.
proof fn lemma_kids_text_snoc(q: Seq<TreeModel<String>>, k: int)
    requires
        0 <= k < q.len(),
    ensures
        kids_text(q.subrange(0, k + 1)) == kids_text(q.subrange(0, k)) + tree_text(q[k])
            + seq![' '],
    decreases k,
{
    let a = q.subrange(0, k + 1);
    if k == 0 {
        assert(a.subrange(1, a.len() as int) =~= Seq::<TreeModel<String>>::empty());
        assert(q.subrange(0, 0) =~= Seq::<TreeModel<String>>::empty());
        assert(kids_text(a) =~= tree_text(q[0]) + seq![' ']);
        assert(kids_text(q.subrange(0, 0)) + tree_text(q[0]) + seq![' '] =~= tree_text(q[0])
            + seq![' ']);
    } else {
        let q1 = q.subrange(1, q.len() as int);
        lemma_kids_text_snoc(q1, k - 1);
        assert(a[0] == q[0]);
        assert(a.subrange(1, a.len() as int) =~= q1.subrange(0, k));
        assert(q.subrange(0, k).subrange(1, k) =~= q1.subrange(0, k - 1));
        assert(q.subrange(0, k)[0] == q[0]);
        assert(q1[k - 1] == q[k]);
        assert(kids_text(a) =~= kids_text(q.subrange(0, k)) + tree_text(q[k]) + seq![' ']);
    }
}

impl Node<String> {
    /// The subtree rooted here, in bracket notation.
    pub fn to_string(&self) -> (s: String)
        requires
            self.wf(),
        ensures
            s@ == tree_text(self.model()),
        decreases tree_count(self.model()),
    {
        proof {
            lemma_kids_model(self.children@);
            reveal_strlit("( ");
            reveal_strlit(" ");
            reveal_strlit(")");
        }
        let mut s = self.data.clone();
        let deg = self.children.len();
        if deg > 0 {
            s.append("( ");
            let mut k: usize = 0;
            while k < deg
                invariant
                    0 <= k <= deg,
                    self.wf(),
                    deg == self.children@.len(),
                    deg == self.model().kids.len(),
                    s@ == self.model().data@ + seq!['(', ' '] + kids_text(
                        self.model().kids.subrange(0, k as int),
                    ),
                decreases deg - k,
            {
                proof {
                    lemma_kids_model(self.children@);
                    crate::model::lemma_forest_count_member(
                        kids_model(self.children@),
                        k as int,
                    );
                    reveal_strlit(" ");
                }
                let cs = self.child(k).to_string();
                s.append(cs.as_str());
                s.append(" ");
                proof {
                    lemma_kids_text_snoc(self.model().kids, k as int);
                }
                k = k + 1;
            }
            s.append(")");
            proof {
                assert(self.model().kids.subrange(0, deg as int) =~= self.model().kids);
            }
        }
        s
    }
}

impl Tree<String> {
    /// The tree in bracket notation.
    pub fn to_string(&self) -> (s: String)
        requires
            self.wf(),
        ensures
            s@ == tree_text(self.model()),
    {
        self.root.to_string()
    }
}

impl Forest<String> {
    /// The forest in bracket notation.
    pub fn to_string(&self) -> (s: String)
        requires
            self.wf(),
        ensures
            s@ == forest_text(self.model()),
    {
        proof {
            lemma_kids_model(self.kids@);
            reveal_strlit("()");
            reveal_strlit("( ");
            reveal_strlit(" ");
            reveal_strlit(")");
        }
        let deg = self.kids.len();
        if deg == 0 {
            return "()".to_owned();
        }
        let mut s = "( ".to_owned();
        let mut k: usize = 0;
        while k < deg
            invariant
                0 <= k <= deg,
                self.wf(),
                deg == self.kids@.len(),
                deg == self.model().len(),
                s@ == seq!['(', ' '] + kids_text(self.model().subrange(0, k as int)),
            decreases deg - k,
        {
            proof {
                lemma_kids_model(self.kids@);
                crate::model::lemma_forest_count_member(kids_model(self.kids@), k as int);
                reveal_strlit(" ");
            }
            let cs = self.kids[k].to_string();
            s.append(cs.as_str());
            s.append(" ");
            proof {
                lemma_kids_text_snoc(self.model(), k as int);
            }
            k = k + 1;
        }
        s.append(")");
        proof {
            assert(self.model().subrange(0, deg as int) =~= self.model());
        }
        s
    }
}

/// How often the character occurs among the first `i` characters.
pub open spec fn count_char_upto(s: Seq<char>, c: char, i: int) -> nat
    decreases i,
{
    if i <= 0 {
        0
    } else {
        count_char_upto(s, c, i - 1) + (if s[i - 1] == c {
            1nat
        } else {
            0nat
        })
    }
}

/// The text's first non-space character is an opening bracket.
pub open spec fn opens_with_bracket(s: Seq<char>) -> bool {
    exists|j: int|
        0 <= j < s.len() && (#[trigger] s[j]) == '(' && (forall|q: int|
            0 <= q < j ==> s[q] == ' ')
}

/// One token of bracket notation.
enum Tok {
    Open,
    Close,
    Atom(String),
}

impl Tree<String> {
    /// Parses bracket notation into a tree, built step by step through
    /// the public mutation operations (so with scattered storage).
    ///
    /// The text must not open with a bracket (a tree needs a root) and
    /// its brackets must balance.  Where the bracket structure is
    /// malformed in other ways, an error is returned rather than
    /// panicking.
    pub fn try_from(s: &str) -> (r: Result<Tree<String>, Error>)
        ensures
            r is Ok ==> r.unwrap().wf(),
            opens_with_bracket(s@) ==> r is Err,
            count_char_upto(s@, '(', s@.len() as int) != count_char_upto(
                s@,
                ')',
                s@.len() as int,
            ) ==> r is Err,
            (forall|q: int| 0 <= q < s@.len() ==> s@[q] == ' ') ==> r is Err,
    {
        let n = s.unicode_len();
        // A tree string must not open with a bracket.
        let mut j: usize = 0;
        let mut stop = false;
        while j < n && !stop
            invariant
                j <= n,
                n == s@.len(),
                forall|q: int| 0 <= q < j ==> s@[q] == ' ',
                stop ==> j < n && s@[j as int] != ' ' && s@[j as int] != '(',
            decreases n - j, (if stop {
                0int
            } else {
                1int
            }),
        {
            let c = s.get_char(j);
            if c == '(' {
                proof {
                    assert(opens_with_bracket(s@)) by {
                        assert(s@[j as int] == '(');
                    }
                }
                return Err(Error::new("no root in tree string"));
            }
            if c != ' ' {
                stop = true;
            } else {
                j = j + 1;
            }
        }
        let ghost lead = j as int;
        proof {
            assert(!opens_with_bracket(s@)) by {
                if opens_with_bracket(s@) {
                    let jb = choose|jb: int|
                        0 <= jb < s@.len() && (#[trigger] s@[jb]) == '(' && (forall|q: int|
                            0 <= q < jb ==> s@[q] == ' ');
                    if jb < lead {
                        assert(s@[jb] == ' ');
                    } else if stop {
                        if jb > lead {
                            assert(s@[lead] == ' ');
                        }
                    } else {
                        assert(s@[jb] == ' ');
                    }
                }
            }
        }
        // Tokenize: brackets and spaces split the text, brackets are
        // tokens themselves.
        let mut toks: Vec<Tok> = Vec::new();
        let mut opens: usize = 0;
        let mut closes: usize = 0;
        let mut start: usize = 0;
        let mut i: usize = 0;
        while i < n
            invariant
                i <= n,
                start <= i,
                n == s@.len(),
                opens == count_char_upto(s@, '(', i as int),
                closes == count_char_upto(s@, ')', i as int),
                (forall|q: int| 0 <= q < i ==> s@[q] == ' ') ==> toks@.len() == 0 && start
                    == i,
            decreases n - i,
        {
            let c = s.get_char(i);
            proof {
                assert(count_char_upto(s@, '(', i as int + 1) == count_char_upto(
                    s@,
                    '(',
                    i as int,
                ) + (if s@[i as int] == '(' {
                    1nat
                } else {
                    0nat
                }));
                assert(count_char_upto(s@, ')', i as int + 1) == count_char_upto(
                    s@,
                    ')',
                    i as int,
                ) + (if s@[i as int] == ')' {
                    1nat
                } else {
                    0nat
                }));
            }
            if c == '(' || c == ')' || c == ' ' {
                if start < i {
                    toks.push(Tok::Atom(s.substring_char(start, i).to_owned()));
                }
                if c == '(' {
                    if opens == usize::MAX {
                        return Err(Error::new("too many brackets"));
                    }
                    opens = opens + 1;
                    toks.push(Tok::Open);
                }
                if c == ')' {
                    if closes == usize::MAX {
                        return Err(Error::new("too many brackets"));
                    }
                    closes = closes + 1;
                    toks.push(Tok::Close);
                }
                start = i + 1;
            }
            i = i + 1;
        }
        if start < n {
            toks.push(Tok::Atom(s.substring_char(start, n).to_owned()));
        }
        if opens != closes || toks.len() == 0 {
            return Err(Error::new("() is not closed"));
        }
        // Build: the first token is the root; a bracket opens a new
        // forest; a closing bracket hangs the finished forest under the
        // last tree of the enclosing forest, or under the root.
        let root_data = match &toks[0] {
            Tok::Atom(a) => a.clone(),
            Tok::Close => ")".to_owned(),
            Tok::Open => {
                return Err(Error::new("no root in tree string"));
            },
        };
        let mut tree = Tree::new(root_data);
        let mut stack: Vec<Forest<String>> = Vec::new();
        let mut k: usize = 1;
        let m = toks.len();
        while k < m
            invariant
                1 <= k <= m,
                m == toks@.len(),
                tree.wf(),
                forall|u: int| 0 <= u < stack@.len() ==> (#[trigger] stack@[u]).wf(),
            decreases m - k,
        {
            let t = &toks[k];
            match t {
                Tok::Open => {
                    stack.push(Forest::new());
                },
                Tok::Close => {
                    let last = match stack.pop() {
                        Some(f) => f,
                        None => {
                            return Err(Error::new("unmatched bracket"));
                        },
                    };
                    if stack.len() > 0 {
                        let fi = stack.len() - 1;
                        let father = vstd::std_specs::vec::vec_index_mut(&mut stack, fi);
                        if father.kids.len() == 0 {
                            return Err(Error::new("bracket group has nothing before it"));
                        }
                        if last.size.descendants > usize::MAX - father.size.descendants {
                            return Err(Error::new("tree is too large"));
                        }
                        proof {
                            lemma_kids_model(father.kids@);
                        }
                        father.append_under_back(last);
                    } else {
                        let room = usize::MAX - tree.root.size.descendants;
                        if room == 0 || last.size.descendants > room - 1 {
                            return Err(Error::new("tree is too large"));
                        }
                        tree.prepend(last);
                    }
                },
                Tok::Atom(a) => {
                    if stack.len() == 0 {
                        return Err(Error::new("value outside any bracket group"));
                    }
                    let fi = stack.len() - 1;
                    let father = vstd::std_specs::vec::vec_index_mut(&mut stack, fi);
                    if father.size.descendants == usize::MAX {
                        return Err(Error::new("tree is too large"));
                    }
                    proof {
                        lemma_kids_model(father.kids@);
                        crate::model::lemma_forest_count_ge_len(kids_model(father.kids@));
                    }
                    father.push_back(Tree::new(a.clone()));
                },
            }
            k = k + 1;
        }
        Ok(tree)
    }
}

} // verus!
