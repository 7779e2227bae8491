//! The parser's working memory: an explicit stack of pending fragments and
//! of finished sibling scopes, one pair per indentation depth.
//!
//! A construct whose subtree may still grow is held as a [`Fragment`]; the
//! finished nodes at each depth wait in the scope of that depth.  A token at
//! depth `d` first closes every fragment deeper than its own target, one
//! level at a time; each closed fragment is promoted into a finished
//! [`Node`] and placed in the scope below it.  The placement rules are:
//!
//! - a simplex or complex token opens a new fragment at its depth;
//! - a comment or othertongue token becomes a finished leaf in the current
//!   scope;
//! - an attacher token joins the attachers of the nearest fragment at its
//!   own or a shallower depth, so an annotation can never land on another
//!   annotation — only fragments receive them, and only simplexes and
//!   complexes are fragments.
//!
//! Every operation is specified exactly against a mathematical model
//! ([`StackM`]) whose transitions are spec functions; the parser's laws are
//! proved over those transitions.

use vstd::prelude::*;
use crate::node::Node;
use crate::node::NodeM;
use crate::node::node_view;
use crate::node::nodes_view;
use crate::node::all_attachers_m;
use crate::node::nodes_wf_m;
use crate::node::lemma_nodes_view_push;
use crate::node::lemma_nodes_view_concat;
use crate::node::lemma_nodes_wf_push;
use crate::node::lemma_nodes_wf_concat;
use crate::parse::LineToken;

verus! {

/// How the next finished node relates to the currently open construct:
/// as a child of it (`Contained`) or as an annotation of it (`Attached`).
/// It is recomputed after every token: a complex expects children, while a
/// simplex or an attacher expects further annotations.
#[derive(Debug, Clone, Copy, PartialEq, Eq)]
pub enum Relationship {
    Contained,
    Attached,
}

/// A pending node under construction at one indentation depth: its name and
/// the attachers collected so far.  A complex fragment's children wait in
/// the scope one depth deeper until the fragment closes.
pub enum Fragment<T, U> {
    Simplex(T, Vec<Node<T, U>>),
    Complex(T, Vec<Node<T, U>>),
}

/// The mathematical model of a [`Fragment`].
pub enum FragmentM<T, U> {
    Simplex(T, Seq<NodeM<T, U>>),
    Complex(T, Seq<NodeM<T, U>>),
}

/// The model of one fragment.
pub open spec fn fragment_view<T, U>(f: Fragment<T, U>) -> FragmentM<T, U> {
    match f {
        Fragment::Simplex(name, attachers) => FragmentM::Simplex(name, nodes_view(attachers@)),
        Fragment::Complex(name, attachers) => FragmentM::Complex(name, nodes_view(attachers@)),
    }
}

/// The model of the fragment stack.
pub open spec fn fragments_view<T, U>(s: Seq<Fragment<T, U>>) -> Seq<FragmentM<T, U>> {
    s.map(|i: int, f: Fragment<T, U>| fragment_view(f))
}

/// The model of the scope stack's scopes.
pub open spec fn scopes_view<T, U>(s: Seq<Vec<Node<T, U>>>) -> Seq<Seq<NodeM<T, U>>> {
    s.map(|i: int, v: Vec<Node<T, U>>| nodes_view(v@))
}

/// The mathematical model of a [`ScopeStack`]: the last recomputed
/// relationship, the open fragments (outermost first), and one scope of
/// finished siblings per depth — always exactly one scope more than there
/// are fragments, the extra one being the root scope.
pub struct StackM<T, U> {
    pub rel: Relationship,
    pub fragments: Seq<FragmentM<T, U>>,
    pub scopes: Seq<Seq<NodeM<T, U>>>,
}

/// The model's shape invariant: one scope per open fragment, plus the root
/// scope.
pub open spec fn inv_m<T, U>(s: StackM<T, U>) -> bool {
    s.scopes.len() == s.fragments.len() + 1
}

/// The model of a fresh stack: no fragments, an empty root scope, and the
/// next node expected as a child.
pub open spec fn init_m<T, U>() -> StackM<T, U> {
    StackM {
        rel: Relationship::Contained,
        fragments: Seq::<FragmentM<T, U>>::empty(),
        scopes: seq![Seq::<NodeM<T, U>>::empty()],
    }
}

/// Closes one level: the innermost fragment is promoted into a finished
/// node and placed at the end of the scope below it.  A complex takes the
/// scope above it as its children; a simplex has no children, so whatever
/// strayed into the scope above it is spilled after it instead, losing
/// nothing.  With no open fragment there is nothing to close.
pub open spec fn close1_m<T, U>(s: StackM<T, U>) -> StackM<T, U>
    recommends
        inv_m(s),
{
    if s.fragments.len() == 0 {
        s
    } else {
        let inner = s.scopes.last();
        let outer = s.scopes.drop_last();
        let target = outer.last();
        let placed = match s.fragments.last() {
            FragmentM::Simplex(name, attachers) => target.push(NodeM::Simplex(name, attachers))
                + inner,
            FragmentM::Complex(name, attachers) => target.push(
                NodeM::Complex(name, attachers, inner),
            ),
        };
        StackM {
            rel: s.rel,
            fragments: s.fragments.drop_last(),
            scopes: outer.update(outer.len() - 1, placed),
        }
    }
}

/// Closes `count` levels, one at a time.
pub open spec fn close_n_m<T, U>(s: StackM<T, U>, count: nat) -> StackM<T, U>
    decreases count,
{
    if count == 0 {
        s
    } else {
        close_n_m(close1_m(s), (count - 1) as nat)
    }
}

/// Closes every fragment deeper than `level`.
pub open spec fn close_to_m<T, U>(s: StackM<T, U>, level: nat) -> StackM<T, U> {
    if s.fragments.len() > level {
        close_n_m(s, (s.fragments.len() - level) as nat)
    } else {
        s
    }
}

/// Appends a finished node to the current (innermost) scope.
pub open spec fn append_leaf_m<T, U>(s: StackM<T, U>, n: NodeM<T, U>) -> StackM<T, U> {
    StackM {
        rel: s.rel,
        fragments: s.fragments,
        scopes: s.scopes.update(s.scopes.len() - 1, s.scopes.last().push(n)),
    }
}

/// Appends an attacher node to the attachers of the innermost fragment.
/// With no open fragment the annotation has nothing to annotate and falls
/// through into the current scope as a plain node.
pub open spec fn attach_m<T, U>(s: StackM<T, U>, label: T, content: T, comments: U) -> StackM<
    T,
    U,
> {
    if s.fragments.len() > 0 {
        let renewed = match s.fragments.last() {
            FragmentM::Simplex(name, attachers) => FragmentM::Simplex(
                name,
                attachers.push(NodeM::Attacher(label, content, comments)),
            ),
            FragmentM::Complex(name, attachers) => FragmentM::Complex(
                name,
                attachers.push(NodeM::Attacher(label, content, comments)),
            ),
        };
        StackM {
            rel: s.rel,
            fragments: s.fragments.update(s.fragments.len() - 1, renewed),
            scopes: s.scopes,
        }
    } else {
        append_leaf_m(s, NodeM::Attacher(label, content, comments))
    }
}

/// Opens a fragment one depth deeper, with a fresh empty scope above it.
pub open spec fn open_fragment_m<T, U>(s: StackM<T, U>, f: FragmentM<T, U>) -> StackM<T, U> {
    StackM {
        rel: s.rel,
        fragments: s.fragments.push(f),
        scopes: s.scopes.push(Seq::<NodeM<T, U>>::empty()),
    }
}

/// The same stack with the relationship recomputed.
pub open spec fn with_rel_m<T, U>(s: StackM<T, U>, rel: Relationship) -> StackM<T, U> {
    StackM { rel: rel, fragments: s.fragments, scopes: s.scopes }
}

/// The effect of one token at its indentation level.
///
/// Every token first closes the fragments deeper than the level it acts
/// at: an opening or pass-through token acts at its own level, while an
/// attacher acts one deeper, so that the construct standing at the
/// attacher's own level stays open and receives it.
pub open spec fn step_m<T, U>(s: StackM<T, U>, level: nat, token: LineToken<T, U>) -> StackM<
    T,
    U,
> {
    match token {
        LineToken::Simplex(name) => with_rel_m(
            open_fragment_m(
                close_to_m(s, level),
                FragmentM::Simplex(name, Seq::<NodeM<T, U>>::empty()),
            ),
            Relationship::Attached,
        ),
        LineToken::Complex(name) => with_rel_m(
            open_fragment_m(
                close_to_m(s, level),
                FragmentM::Complex(name, Seq::<NodeM<T, U>>::empty()),
            ),
            Relationship::Contained,
        ),
        LineToken::Attacher(label, content, comments) => with_rel_m(
            attach_m(close_to_m(s, level + 1), label, content, comments),
            Relationship::Attached,
        ),
        LineToken::LineComment(t) => append_leaf_m(close_to_m(s, level), NodeM::LineComment(t)),
        LineToken::BlockComment(u) => append_leaf_m(close_to_m(s, level), NodeM::BlockComment(u)),
        LineToken::LineOthertongue(t) => append_leaf_m(
            close_to_m(s, level),
            NodeM::LineOthertongue(t),
        ),
        LineToken::BlockOthertongue(u) => append_leaf_m(
            close_to_m(s, level),
            NodeM::BlockOthertongue(u),
        ),
    }
}

/// The forest that finishing the stack yields: close everything, then hand
/// the root scope out.
pub open spec fn finalize_m<T, U>(s: StackM<T, U>) -> Seq<NodeM<T, U>> {
    close_to_m(s, 0).scopes[0]
}

/// Closing a fragment removes exactly one level and keeps the shape
/// invariant.
pub proof fn lemma_close1_shape<T, U>(s: StackM<T, U>)
    requires
        inv_m(s),
        s.fragments.len() > 0,
    ensures
        inv_m(close1_m(s)),
        close1_m(s).fragments.len() == s.fragments.len() - 1,
        close1_m(s).rel == s.rel,
{
}

/// Closing `count` levels of a stack that has them keeps the shape
/// invariant and leaves exactly `count` fewer levels.
pub proof fn lemma_close_n_shape<T, U>(s: StackM<T, U>, count: nat)
    requires
        inv_m(s),
        count <= s.fragments.len(),
    ensures
        inv_m(close_n_m(s, count)),
        close_n_m(s, count).fragments.len() == s.fragments.len() - count,
        close_n_m(s, count).rel == s.rel,
    decreases count,
{
    if count > 0 {
        lemma_close1_shape(s);
        lemma_close_n_shape(close1_m(s), (count - 1) as nat);
    }
}

/// Closing down to a level leaves at most that many levels open.
pub proof fn lemma_close_to_shape<T, U>(s: StackM<T, U>, level: nat)
    requires
        inv_m(s),
    ensures
        inv_m(close_to_m(s, level)),
        close_to_m(s, level).fragments.len() == if s.fragments.len() > level {
            level as int
        } else {
            s.fragments.len() as int
        },
        close_to_m(s, level).rel == s.rel,
{
    if s.fragments.len() > level {
        lemma_close_n_shape(s, (s.fragments.len() - level) as nat);
    }
}

/// Dropping the last element of a viewed scope stack is viewing the
/// dropped stack.
proof fn lemma_scopes_view_drop<T, U>(s: Seq<Vec<Node<T, U>>>)
    requires
        s.len() > 0,
    ensures
        scopes_view(s.drop_last()) == scopes_view(s).drop_last(),
{
    assert(scopes_view(s.drop_last()) =~= scopes_view(s).drop_last());
}

/// Pushing onto a viewed scope stack is viewing the pushed stack.
proof fn lemma_scopes_view_push<T, U>(s: Seq<Vec<Node<T, U>>>, v: Vec<Node<T, U>>)
    ensures
        scopes_view(s.push(v)) == scopes_view(s).push(nodes_view(v@)),
{
    assert(scopes_view(s.push(v)) =~= scopes_view(s).push(nodes_view(v@)));
}

/// Dropping the last element of a viewed fragment stack is viewing the
/// dropped stack.
proof fn lemma_fragments_view_drop<T, U>(s: Seq<Fragment<T, U>>)
    requires
        s.len() > 0,
    ensures
        fragments_view(s.drop_last()) == fragments_view(s).drop_last(),
{
    assert(fragments_view(s.drop_last()) =~= fragments_view(s).drop_last());
}

/// Pushing onto a viewed fragment stack is viewing the pushed stack.
proof fn lemma_fragments_view_push<T, U>(s: Seq<Fragment<T, U>>, f: Fragment<T, U>)
    ensures
        fragments_view(s.push(f)) == fragments_view(s).push(fragment_view(f)),
{
    assert(fragments_view(s.push(f)) =~= fragments_view(s).push(fragment_view(f)));
}

/// The parser's working memory; see the module documentation.
pub struct ScopeStack<T, U> {
    /// The current indentation depth: the number of open fragments.
    pub level: usize,
    /// The relationship recomputed after the last token.
    pub last_relationship: Relationship,
    /// The open fragments, outermost first.
    pub fragments: Vec<Fragment<T, U>>,
    /// One scope of finished siblings per depth, the root scope first.
    pub scopes: Vec<Vec<Node<T, U>>>,
}

impl<T, U> View for ScopeStack<T, U> {
    type V = StackM<T, U>;

    open spec fn view(&self) -> StackM<T, U> {
        StackM {
            rel: self.last_relationship,
            fragments: fragments_view(self.fragments@),
            scopes: scopes_view(self.scopes@),
        }
    }
}

impl<T, U> ScopeStack<T, U> {
    /// The stack's well-formedness: the level names the number of open
    /// fragments, and there is one scope per depth plus the root scope.
    pub open spec fn wf(&self) -> bool {
        &&& self.level == self.fragments@.len()
        &&& self.scopes@.len() == self.fragments@.len() + 1
    }

    /// Creates a scope stack that serves as the memory for the main parser.
    pub fn new() -> (s: Self)
        ensures
            s.wf(),
            s@ == init_m::<T, U>(),
    {
        let level: usize = 0;
        let last_relationship = Relationship::Contained;
        let fragments: Vec<Fragment<T, U>> = Vec::new();
        let mut scopes: Vec<Vec<Node<T, U>>> = Vec::with_capacity(1);
        scopes.push(Vec::new());
        let s = ScopeStack { level, last_relationship, fragments, scopes };
        proof {
            assert(fragments_view(s.fragments@) =~= Seq::<FragmentM<T, U>>::empty());
            assert(scopes_view(s.scopes@) =~= seq![Seq::<NodeM<T, U>>::empty()]);
        }
        s
    }

    /// Appends a finished node to the innermost scope.
    pub fn push_to_last_scope(&mut self, node: Node<T, U>)
        requires
            old(self).wf(),
        ensures
            final(self).wf(),
            final(self)@ == append_leaf_m(old(self)@, node_view(node)),
    {
        let ghost s0 = self@;
        let mut last: Vec<Node<T, U>> = self.scopes.pop().unwrap();
        let ghost last0 = last@;
        last.push(node);
        self.scopes.push(last);
        proof {
            lemma_nodes_view_push(last0, node);
            lemma_scopes_view_drop(old(self).scopes@);
            lemma_scopes_view_push(old(self).scopes@.drop_last(), last);
            assert(s0.scopes.drop_last().push(nodes_view(last0).push(node_view(node)))
                =~= s0.scopes.update(s0.scopes.len() - 1, s0.scopes.last().push(node_view(node))));
            assert(self@ == append_leaf_m(s0, node_view(node)));
        }
    }

    /// Closes one level: promotes the innermost fragment into a finished
    /// node, placed at the end of the scope below it.
    pub fn promote_last_fragment(&mut self)
        requires
            old(self).wf(),
            old(self).fragments@.len() > 0,
        ensures
            final(self).wf(),
            final(self)@ == close1_m(old(self)@),
    {
        let ghost s0 = self@;
        let inner: Vec<Node<T, U>> = self.scopes.pop().unwrap();
        let frag: Fragment<T, U> = self.fragments.pop().unwrap();
        let mut target: Vec<Node<T, U>> = self.scopes.pop().unwrap();
        let ghost target0 = target@;
        match frag {
            Fragment::Simplex(name, attachers) => {
                let ghost attachers0 = attachers@;
                target.push(Node::Simplex(name, attachers));
                let mut strays = inner;
                let ghost strays0 = strays@;
                target.append(&mut strays);
                proof {
                    lemma_nodes_view_push(target0, Node::Simplex(name, attachers));
                    lemma_nodes_view_concat(target0.push(Node::Simplex(name, attachers)), strays0);
                }
            },
            Fragment::Complex(name, attachers) => {
                target.push(Node::Complex(name, attachers, inner));
                proof {
                    lemma_nodes_view_push(target0, Node::Complex(name, attachers, inner));
                }
            },
        }
        self.scopes.push(target);
        self.level = self.fragments.len();
        proof {
            lemma_scopes_view_drop(old(self).scopes@);
            lemma_scopes_view_drop(old(self).scopes@.drop_last());
            lemma_fragments_view_drop(old(self).fragments@);
            lemma_scopes_view_push(old(self).scopes@.drop_last().drop_last(), target);
            assert(s0.scopes.drop_last().drop_last().push(nodes_view(target@)) =~= s0
                .scopes
                .drop_last()
                .update(s0.scopes.drop_last().len() - 1, nodes_view(target@)));
            assert(self@ == close1_m(s0));
        }
    }

    /// Closes `count` levels, one at a time.
    pub fn minimize_scope_level_by(&mut self, count: usize)
        requires
            old(self).wf(),
            count <= old(self).fragments@.len(),
        ensures
            final(self).wf(),
            final(self)@ == close_n_m(old(self)@, count as nat),
    {
        let ghost s0 = self@;
        let mut closed: usize = 0;
        while closed < count
            invariant
                self.wf(),
                closed <= count <= self.fragments@.len() + closed,
                close_n_m(s0, count as nat) == close_n_m(self@, (count - closed) as nat),
            decreases count - closed,
        {
            self.promote_last_fragment();
            closed = closed + 1;
        }
    }

    /// Closes every fragment deeper than `level`.
    pub fn close_to_level(&mut self, level: usize)
        requires
            old(self).wf(),
        ensures
            final(self).wf(),
            final(self)@ == close_to_m(old(self)@, level as nat),
    {
        if self.fragments.len() > level {
            let count = self.fragments.len() - level;
            self.minimize_scope_level_by(count);
        }
    }

    /// Consumes one token, classified and paired with the indentation level
    /// of its line; the effect is exactly [`step_m`].
    pub fn receive_token(&mut self, level: usize, token: LineToken<T, U>)
        requires
            old(self).wf(),
        ensures
            final(self).wf(),
            final(self)@ == step_m(old(self)@, level as nat, token),
    {
        let ghost s0 = self@;
        match token {
            LineToken::Simplex(name) => {
                self.close_to_level(level);
                self.open_simplex(name);
                self.last_relationship = Relationship::Attached;
            },
            LineToken::Complex(name) => {
                self.close_to_level(level);
                self.open_complex(name);
                self.last_relationship = Relationship::Contained;
            },
            LineToken::Attacher(label, content, comments) => {
                if level < usize::MAX {
                    self.close_to_level(level + 1);
                } else {
                    proof {
                        assert(close_to_m(s0, level as nat + 1) == s0);
                    }
                }
                self.append_attacher(label, content, comments);
                self.last_relationship = Relationship::Attached;
            },
            LineToken::LineComment(t) => {
                self.close_to_level(level);
                self.push_to_last_scope(Node::LineComment(t));
            },
            LineToken::BlockComment(u) => {
                self.close_to_level(level);
                self.push_to_last_scope(Node::BlockComment(u));
            },
            LineToken::LineOthertongue(t) => {
                self.close_to_level(level);
                self.push_to_last_scope(Node::LineOthertongue(t));
            },
            LineToken::BlockOthertongue(u) => {
                self.close_to_level(level);
                self.push_to_last_scope(Node::BlockOthertongue(u));
            },
        }
    }

    /// Opens a simplex fragment one depth deeper.
    fn open_simplex(&mut self, name: T)
        requires
            old(self).wf(),
        ensures
            final(self).wf(),
            final(self)@ == open_fragment_m(
                old(self)@,
                FragmentM::Simplex(name, Seq::<NodeM<T, U>>::empty()),
            ),
    {
        let ghost s0 = self@;
        let fragment = Fragment::Simplex(name, Vec::new());
        let empty_scope: Vec<Node<T, U>> = Vec::new();
        proof {
            lemma_fragments_view_push(self.fragments@, fragment);
            lemma_scopes_view_push(self.scopes@, empty_scope);
        }
        self.fragments.push(fragment);
        self.scopes.push(empty_scope);
        self.level = self.fragments.len();
    }

    /// Opens a complex fragment one depth deeper.
    fn open_complex(&mut self, name: T)
        requires
            old(self).wf(),
        ensures
            final(self).wf(),
            final(self)@ == open_fragment_m(
                old(self)@,
                FragmentM::Complex(name, Seq::<NodeM<T, U>>::empty()),
            ),
    {
        let ghost s0 = self@;
        let fragment = Fragment::Complex(name, Vec::new());
        let empty_scope: Vec<Node<T, U>> = Vec::new();
        proof {
            lemma_fragments_view_push(self.fragments@, fragment);
            lemma_scopes_view_push(self.scopes@, empty_scope);
        }
        self.fragments.push(fragment);
        self.scopes.push(empty_scope);
        self.level = self.fragments.len();
    }

    /// Appends an attacher to the innermost fragment's attachers; with no
    /// fragment open it falls through into the current scope.
    fn append_attacher(&mut self, label: T, content: T, comments: U)
        requires
            old(self).wf(),
        ensures
            final(self).wf(),
            final(self)@ == attach_m(old(self)@, label, content, comments),
    {
        let ghost s0 = self@;
        let popped = self.fragments.pop();
        match popped {
            Option::Some(frag) => {
                let renewed = match frag {
                    Fragment::Simplex(name, mut attachers) => {
                        let ghost attachers0 = attachers@;
                        attachers.push(Node::Attacher(label, content, comments));
                        proof {
                            lemma_nodes_view_push(
                                attachers0,
                                Node::Attacher(label, content, comments),
                            );
                        }
                        Fragment::Simplex(name, attachers)
                    },
                    Fragment::Complex(name, mut attachers) => {
                        let ghost attachers0 = attachers@;
                        attachers.push(Node::Attacher(label, content, comments));
                        proof {
                            lemma_nodes_view_push(
                                attachers0,
                                Node::Attacher(label, content, comments),
                            );
                        }
                        Fragment::Complex(name, attachers)
                    },
                };
                proof {
                    lemma_fragments_view_drop(old(self).fragments@);
                }
                let ghost dropped = self.fragments@;
                self.fragments.push(renewed);
                proof {
                    lemma_fragments_view_push(dropped, renewed);
                    assert(s0.fragments.drop_last().push(fragment_view(renewed)) =~= s0
                        .fragments
                        .update(s0.fragments.len() - 1, fragment_view(renewed)));
                    assert(self@ == attach_m(s0, label, content, comments));
                }
            },
            Option::None => {
                self.push_to_last_scope(Node::Attacher(label, content, comments));
            },
        }
    }

    /// Finishes the parse: closes every fragment still open and hands the
    /// root scope's nodes out as the forest.
    pub fn finalize(self) -> (forest: Vec<Node<T, U>>)
        requires
            self.wf(),
        ensures
            nodes_view(forest@) == finalize_m(self@),
    {
        let mut s = self;
        s.close_to_level(0);
        proof {
            lemma_close_to_shape(self@, 0);
        }
        let forest = s.scopes.pop().unwrap();
        forest
    }
}

/// Closing `j + k` levels in one step yields the very same stack as
/// closing `j` levels and then `k` levels: a dedent of several levels is
/// nothing but that many single-level closes in sequence.
pub proof fn lemma_dedent_in_steps<T, U>(s: StackM<T, U>, j: nat, k: nat)
    ensures
        close_n_m(s, j + k) == close_n_m(close_n_m(s, j), k),
    decreases j,
{
    if j > 0 {
        lemma_dedent_in_steps(close1_m(s), (j - 1) as nat, k);
    }
}

/// A tidy stack: a simplex fragment, having no children, is only ever the
/// innermost open fragment, and nothing has strayed into the scope above
/// it.
pub open spec fn tidy_m<T, U>(s: StackM<T, U>) -> bool {
    forall|i: int|
        0 <= i < s.fragments.len() && s.fragments[i] is Simplex ==> i == s.fragments.len() - 1
            && s.scopes[i + 1].len() == 0
}

/// The number of root nodes a stack already accounts for: the finished
/// nodes of the root scope, plus one for the whole tower of open
/// fragments, which closes into a single further root.
pub open spec fn root_total<T, U>(s: StackM<T, U>) -> nat {
    s.scopes[0].len() + (if s.fragments.len() > 0 {
        1nat
    } else {
        0nat
    })
}

/// Closing one level keeps the stack's shape and tidiness and accounts for
/// the same number of roots.
pub proof fn lemma_close1_keeps<T, U>(s: StackM<T, U>)
    requires
        inv_m(s),
        tidy_m(s),
        s.fragments.len() > 0,
    ensures
        inv_m(close1_m(s)),
        tidy_m(close1_m(s)),
        root_total(close1_m(s)) == root_total(s),
        close1_m(s).fragments == s.fragments.drop_last(),
{
    let n = s.fragments.len() as int;
    let closed = close1_m(s);
    assert(forall|i: int| 0 <= i < n - 1 ==> closed.fragments[i] == s.fragments[i]);
    if n == 1 {
        assert(closed.scopes[0] == close1_m(s).scopes.last());
        if s.fragments.last() is Simplex {
            assert(s.scopes[1].len() == 0);
        }
    } else {
        assert(closed.scopes[0] == s.scopes[0]);
    }
}

/// Closing any number of available levels keeps shape, tidiness and the
/// accounted roots, and shortens the fragment stack by exactly that
/// number.
pub proof fn lemma_close_n_keeps<T, U>(s: StackM<T, U>, count: nat)
    requires
        inv_m(s),
        tidy_m(s),
        count <= s.fragments.len(),
    ensures
        inv_m(close_n_m(s, count)),
        tidy_m(close_n_m(s, count)),
        root_total(close_n_m(s, count)) == root_total(s),
        close_n_m(s, count).fragments == s.fragments.subrange(
            0,
            s.fragments.len() - count,
        ),
    decreases count,
{
    if count == 0 {
        assert(s.fragments.subrange(0, s.fragments.len() as int) =~= s.fragments);
    } else {
        lemma_close1_keeps(s);
        lemma_close_n_keeps(close1_m(s), (count - 1) as nat);
        assert(s.fragments.drop_last().subrange(
            0,
            s.fragments.len() - count,
        ) =~= s.fragments.subrange(0, s.fragments.len() - count));
    }
}

/// Closing down to a level keeps shape, tidiness and the accounted roots,
/// and leaves exactly the shallow fragments open.
pub proof fn lemma_close_to_keeps<T, U>(s: StackM<T, U>, level: nat)
    requires
        inv_m(s),
        tidy_m(s),
    ensures
        inv_m(close_to_m(s, level)),
        tidy_m(close_to_m(s, level)),
        root_total(close_to_m(s, level)) == root_total(s),
        close_to_m(s, level).fragments == s.fragments.subrange(
            0,
            if s.fragments.len() > level {
                level as int
            } else {
                s.fragments.len() as int
            },
        ),
{
    if s.fragments.len() > level {
        lemma_close_n_keeps(s, (s.fragments.len() - level) as nat);
    } else {
        assert(s.fragments.subrange(0, s.fragments.len() as int) =~= s.fragments);
    }
}

/// A well-formed fragment: the attachers collected so far are attacher
/// nodes alone, each well formed.
pub open spec fn fragment_wf_m<T, U>(f: FragmentM<T, U>) -> bool {
    match f {
        FragmentM::Simplex(_, attachers) => all_attachers_m(attachers) && nodes_wf_m(attachers),
        FragmentM::Complex(_, attachers) => all_attachers_m(attachers) && nodes_wf_m(attachers),
    }
}

/// A well-formed stack: every scope holds well-formed nodes and every open
/// fragment is well formed.
pub open spec fn stack_wf_m<T, U>(s: StackM<T, U>) -> bool {
    &&& forall|i: int| 0 <= i < s.scopes.len() ==> nodes_wf_m(s.scopes[i])
    &&& forall|i: int| 0 <= i < s.fragments.len() ==> fragment_wf_m(s.fragments[i])
}

/// Closing one level keeps the stack well formed: the promoted node's
/// attachers come from a well-formed fragment and its children from a
/// well-formed scope.
pub proof fn lemma_close1_wf<T, U>(s: StackM<T, U>)
    requires
        inv_m(s),
        stack_wf_m(s),
    ensures
        stack_wf_m(close1_m(s)),
{
    if s.fragments.len() > 0 {
        let inner = s.scopes.last();
        let outer = s.scopes.drop_last();
        let target = outer.last();
        let r = close1_m(s);
        match s.fragments.last() {
            FragmentM::Simplex(name, attachers) => {
                lemma_nodes_wf_push(target, NodeM::Simplex(name, attachers));
                lemma_nodes_wf_concat(target.push(NodeM::Simplex(name, attachers)), inner);
            },
            FragmentM::Complex(name, attachers) => {
                lemma_nodes_wf_push(target, NodeM::Complex(name, attachers, inner));
            },
        }
    }
}

/// Closing any number of levels keeps the stack well formed.
pub proof fn lemma_close_n_wf<T, U>(s: StackM<T, U>, count: nat)
    requires
        inv_m(s),
        count <= s.fragments.len(),
        stack_wf_m(s),
    ensures
        stack_wf_m(close_n_m(s, count)),
    decreases count,
{
    if count > 0 {
        lemma_close1_shape(s);
        lemma_close1_wf(s);
        lemma_close_n_wf(close1_m(s), (count - 1) as nat);
    }
}

/// Closing down to a level keeps the stack well formed.
pub proof fn lemma_close_to_wf<T, U>(s: StackM<T, U>, level: nat)
    requires
        inv_m(s),
        stack_wf_m(s),
    ensures
        stack_wf_m(close_to_m(s, level)),
{
    if s.fragments.len() > level {
        lemma_close_n_wf(s, (s.fragments.len() - level) as nat);
    }
}

} // verus!
