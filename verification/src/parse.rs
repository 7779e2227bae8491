//! The parser: a stream of classified line tokens goes in, a forest of
//! [`Node`]s comes out.
//!
//! Each token arrives with the indentation level its line carries.  The
//! [`ScopeStack`] consumes the tokens one at a time and reconstructs the
//! nesting that the indentation describes, without recursion.

mod scope_stack;

pub use scope_stack::Fragment;
pub use scope_stack::FragmentM;
pub use scope_stack::Relationship;
pub use scope_stack::ScopeStack;
pub use scope_stack::StackM;

use vstd::prelude::*;
use crate::node::Node;
use crate::node::NodeM;
use crate::node::all_attachers_m;
use crate::node::node_wf_m;
use crate::node::nodes_view;
use crate::node::nodes_wf_m;
use crate::node::lemma_nodes_wf_push;
use scope_stack::append_leaf_m;
use scope_stack::attach_m;
use scope_stack::close_to_m;
use scope_stack::finalize_m;
use scope_stack::init_m;
use scope_stack::inv_m;
use scope_stack::lemma_close_to_keeps;
use scope_stack::lemma_close_to_shape;
use scope_stack::lemma_close_to_wf;
use scope_stack::stack_wf_m;
use scope_stack::open_fragment_m;
use scope_stack::root_total;
use scope_stack::step_m;
use scope_stack::tidy_m;

verus! {

/// One classified line of the source, as the external classifier hands it
/// over.
///
/// - `Simplex(name)` and `Complex(name)` start a construct.
/// - `Attacher(label, content, comments)` annotates the construct it
///   reaches.
/// - The comment and othertongue kinds are finished content and pass
///   through.
pub enum LineToken<T, U> {
    Simplex(T),
    Complex(T),
    Attacher(T, T, U),
    LineComment(T),
    BlockComment(U),
    LineOthertongue(T),
    BlockOthertongue(U),
}

/// The stack state after consuming a whole token stream, token by token.
pub open spec fn run_m<T, U>(
    s: StackM<T, U>,
    stream: Seq<(usize, LineToken<T, U>)>,
) -> StackM<T, U>
    decreases stream.len(),
{
    if stream.len() == 0 {
        s
    } else {
        run_m(step_m(s, stream[0].0 as nat, stream[0].1), stream.drop_first())
    }
}

/// The forest that parsing a token stream yields: run every token through
/// a fresh stack, then close whatever is still open.
pub open spec fn spec_parse<T, U>(stream: Seq<(usize, LineToken<T, U>)>) -> Seq<NodeM<T, U>> {
    finalize_m(run_m(init_m::<T, U>(), stream))
}

/// Parses a stream of line tokens, each paired with the indentation level
/// of its line, into the forest of root nodes.
pub fn parse<T, U>(stream: Vec<(usize, LineToken<T, U>)>) -> (forest: Vec<Node<T, U>>)
    ensures
        nodes_view(forest@) == spec_parse(stream@),
{
    let ghost stream0 = stream@;
    let mut stream = stream;
    let mut scope_stack = ScopeStack::<T, U>::new();
    while stream.len() > 0
        invariant
            scope_stack.wf(),
            run_m(init_m::<T, U>(), stream0) == run_m(scope_stack@, stream@),
        decreases stream@.len(),
    {
        let ghost pre = stream@;
        let (level, token) = stream.remove(0);
        proof {
            assert(stream@ =~= pre.drop_first());
        }
        scope_stack.receive_token(level, token);
    }
    scope_stack.finalize()
}

/// What one token asks of the stack for its placement to be the intended
/// one.  An attacher needs some construct to be open.  Any other token must
/// not be indented deeper than the open nesting, and may stand directly
/// under an open construct only if that construct is a complex — a simplex
/// owns no subtree.
pub open spec fn token_fits<T, U>(s: StackM<T, U>, level: nat, token: LineToken<T, U>) -> bool {
    match token {
        LineToken::Attacher(_, _, _) => s.fragments.len() > 0,
        _ => level <= s.fragments.len() && (level == s.fragments.len() && level > 0
            ==> s.fragments.last() is Complex),
    }
}

/// A well-nested stream: every token, run against the stack as it stands
/// when the token arrives, fits.
pub open spec fn well_nested<T, U>(
    s: StackM<T, U>,
    stream: Seq<(usize, LineToken<T, U>)>,
) -> bool
    decreases stream.len(),
{
    stream.len() == 0 || {
        &&& token_fits(s, stream[0].0 as nat, stream[0].1)
        &&& well_nested(step_m(s, stream[0].0 as nat, stream[0].1), stream.drop_first())
    }
}

/// The number of top-level constructs in a stream: the tokens at depth
/// zero that are not attachers.
pub open spec fn count_top_level<T, U>(stream: Seq<(usize, LineToken<T, U>)>) -> nat
    decreases stream.len(),
{
    if stream.len() == 0 {
        0
    } else {
        count_top_level(stream.drop_first()) + (if stream[0].0 == 0 && !(stream[0].1
            is Attacher) {
            1nat
        } else {
            0nat
        })
    }
}

/// Opening a fragment at a fitting level keeps the stack well shaped and
/// adds a root exactly when the level is zero.
proof fn lemma_open_keeps<T, U>(s: StackM<T, U>, level: nat, f: FragmentM<T, U>)
    requires
        inv_m(s),
        tidy_m(s),
        level <= s.fragments.len(),
        level == s.fragments.len() && level > 0 ==> s.fragments.last() is Complex,
    ensures
        inv_m(open_fragment_m(close_to_m(s, level), f)),
        tidy_m(open_fragment_m(close_to_m(s, level), f)),
        root_total(open_fragment_m(close_to_m(s, level), f)) == root_total(s) + (if level == 0 {
            1nat
        } else {
            0nat
        }),
{
    lemma_close_to_keeps(s, level);
    let s1 = close_to_m(s, level);
    let r = open_fragment_m(s1, f);
    assert(forall|i: int| 0 <= i < level ==> r.fragments[i] == s.fragments[i]);
    assert(forall|i: int|
        0 <= i < level ==> !(s.fragments[i] is Simplex)) by {
        assert(forall|i: int|
            0 <= i < level && s.fragments[i] is Simplex ==> i == s.fragments.len() - 1
                && level == s.fragments.len());
    }
    assert(r.scopes[level as int + 1].len() == 0);
    assert(r.scopes[0] == s1.scopes[0]);
}

/// Appending a leaf at a fitting level keeps the stack well shaped and
/// adds a root exactly when the level is zero.
proof fn lemma_leaf_keeps<T, U>(s: StackM<T, U>, level: nat, n: NodeM<T, U>)
    requires
        inv_m(s),
        tidy_m(s),
        level <= s.fragments.len(),
        level == s.fragments.len() && level > 0 ==> s.fragments.last() is Complex,
    ensures
        inv_m(append_leaf_m(close_to_m(s, level), n)),
        tidy_m(append_leaf_m(close_to_m(s, level), n)),
        root_total(append_leaf_m(close_to_m(s, level), n)) == root_total(s) + (if level == 0 {
            1nat
        } else {
            0nat
        }),
{
    lemma_close_to_keeps(s, level);
    let s1 = close_to_m(s, level);
    let r = append_leaf_m(s1, n);
    assert(forall|i: int| 0 <= i < level ==> s1.fragments[i] == s.fragments[i]);
    assert(forall|i: int|
        0 <= i < level ==> !(s.fragments[i] is Simplex)) by {
        assert(forall|i: int|
            0 <= i < level && s.fragments[i] is Simplex ==> i == s.fragments.len() - 1
                && level == s.fragments.len());
    }
    if level > 0 {
        assert(r.scopes[0] == s1.scopes[0]);
    }
}

/// Attaching keeps the stack well shaped and never adds a root.
proof fn lemma_attach_keeps<T, U>(s: StackM<T, U>, level: nat, label: T, content: T, comments: U)
    requires
        inv_m(s),
        tidy_m(s),
        s.fragments.len() > 0,
    ensures
        inv_m(attach_m(close_to_m(s, level + 1), label, content, comments)),
        tidy_m(attach_m(close_to_m(s, level + 1), label, content, comments)),
        root_total(attach_m(close_to_m(s, level + 1), label, content, comments)) == root_total(s),
{
    lemma_close_to_keeps(s, level + 1);
    let s1 = close_to_m(s, level + 1);
    let r = attach_m(s1, label, content, comments);
    assert(s1.fragments.len() > 0);
    assert(forall|i: int|
        0 <= i < r.fragments.len() ==> (r.fragments[i] is Simplex <==> s1.fragments[i]
            is Simplex));
    assert(r.scopes == s1.scopes);
    assert(r.fragments.len() == s1.fragments.len());
}

/// One fitting token keeps the stack well shaped, and adds a root exactly
/// when it is a construct or pass-through line at depth zero.
proof fn lemma_step_keeps<T, U>(s: StackM<T, U>, level: nat, token: LineToken<T, U>)
    requires
        inv_m(s),
        tidy_m(s),
        token_fits(s, level, token),
    ensures
        inv_m(step_m(s, level, token)),
        tidy_m(step_m(s, level, token)),
        root_total(step_m(s, level, token)) == root_total(s) + (if level == 0 && !(token
            is Attacher) {
            1nat
        } else {
            0nat
        }),
{
    match token {
        LineToken::Simplex(name) => {
            lemma_open_keeps(s, level, FragmentM::Simplex(name, Seq::<NodeM<T, U>>::empty()));
        },
        LineToken::Complex(name) => {
            lemma_open_keeps(s, level, FragmentM::Complex(name, Seq::<NodeM<T, U>>::empty()));
        },
        LineToken::Attacher(label, content, comments) => {
            lemma_attach_keeps(s, level, label, content, comments);
        },
        LineToken::LineComment(t) => {
            lemma_leaf_keeps(s, level, NodeM::LineComment(t));
        },
        LineToken::BlockComment(u) => {
            lemma_leaf_keeps(s, level, NodeM::BlockComment(u));
        },
        LineToken::LineOthertongue(t) => {
            lemma_leaf_keeps(s, level, NodeM::LineOthertongue(t));
        },
        LineToken::BlockOthertongue(u) => {
            lemma_leaf_keeps(s, level, NodeM::BlockOthertongue(u));
        },
    }
}

/// Running a well-nested stream keeps the stack well shaped and accounts
/// for exactly one root per top-level construct.
proof fn lemma_run_keeps<T, U>(s: StackM<T, U>, stream: Seq<(usize, LineToken<T, U>)>)
    requires
        inv_m(s),
        tidy_m(s),
        well_nested(s, stream),
    ensures
        inv_m(run_m(s, stream)),
        tidy_m(run_m(s, stream)),
        root_total(run_m(s, stream)) == root_total(s) + count_top_level(stream),
    decreases stream.len(),
{
    if stream.len() > 0 {
        lemma_step_keeps(s, stream[0].0 as nat, stream[0].1);
        lemma_run_keeps(step_m(s, stream[0].0 as nat, stream[0].1), stream.drop_first());
    }
}

/// Appending a well-formed leaf keeps the stack well formed.
proof fn lemma_append_leaf_wf<T, U>(s: StackM<T, U>, n: NodeM<T, U>)
    requires
        inv_m(s),
        stack_wf_m(s),
        node_wf_m(n),
    ensures
        stack_wf_m(append_leaf_m(s, n)),
{
    lemma_nodes_wf_push(s.scopes.last(), n);
}

/// One token of any kind, at any level, keeps the stack's shape and keeps
/// it well formed.
proof fn lemma_step_wf<T, U>(s: StackM<T, U>, level: nat, token: LineToken<T, U>)
    requires
        inv_m(s),
        stack_wf_m(s),
    ensures
        inv_m(step_m(s, level, token)),
        stack_wf_m(step_m(s, level, token)),
{
    match token {
        LineToken::Simplex(name) => {
            lemma_close_to_shape(s, level);
            lemma_close_to_wf(s, level);
        },
        LineToken::Complex(name) => {
            lemma_close_to_shape(s, level);
            lemma_close_to_wf(s, level);
        },
        LineToken::Attacher(label, content, comments) => {
            lemma_close_to_shape(s, level + 1);
            lemma_close_to_wf(s, level + 1);
            let s1 = close_to_m(s, level + 1);
            let placed = NodeM::<T, U>::Attacher(label, content, comments);
            if s1.fragments.len() > 0 {
                match s1.fragments.last() {
                    FragmentM::Simplex(name, attachers) => {
                        lemma_nodes_wf_push(attachers, placed);
                        assert(all_attachers_m(attachers.push(placed)));
                    },
                    FragmentM::Complex(name, attachers) => {
                        lemma_nodes_wf_push(attachers, placed);
                        assert(all_attachers_m(attachers.push(placed)));
                    },
                }
            } else {
                lemma_append_leaf_wf(s1, placed);
            }
        },
        LineToken::LineComment(t) => {
            lemma_close_to_shape(s, level);
            lemma_close_to_wf(s, level);
            lemma_append_leaf_wf(close_to_m(s, level), NodeM::LineComment(t));
        },
        LineToken::BlockComment(u) => {
            lemma_close_to_shape(s, level);
            lemma_close_to_wf(s, level);
            lemma_append_leaf_wf(close_to_m(s, level), NodeM::BlockComment(u));
        },
        LineToken::LineOthertongue(t) => {
            lemma_close_to_shape(s, level);
            lemma_close_to_wf(s, level);
            lemma_append_leaf_wf(close_to_m(s, level), NodeM::LineOthertongue(t));
        },
        LineToken::BlockOthertongue(u) => {
            lemma_close_to_shape(s, level);
            lemma_close_to_wf(s, level);
            lemma_append_leaf_wf(close_to_m(s, level), NodeM::BlockOthertongue(u));
        },
    }
}

/// Running any stream keeps the stack's shape and keeps it well formed.
proof fn lemma_run_wf<T, U>(s: StackM<T, U>, stream: Seq<(usize, LineToken<T, U>)>)
    requires
        inv_m(s),
        stack_wf_m(s),
    ensures
        inv_m(run_m(s, stream)),
        stack_wf_m(run_m(s, stream)),
    decreases stream.len(),
{
    if stream.len() > 0 {
        lemma_step_wf(s, stream[0].0 as nat, stream[0].1);
        lemma_run_wf(step_m(s, stream[0].0 as nat, stream[0].1), stream.drop_first());
    }
}

/// Whatever the stream — well nested or not — the parsed forest is well
/// formed: every attachers sequence, at every depth, holds attacher nodes
/// alone.  An annotation can land only in the attachers of a simplex or
/// complex, never under another annotation.
pub proof fn lemma_parse_all_attachers_attach<T, U>(stream: Seq<(usize, LineToken<T, U>)>)
    ensures
        nodes_wf_m(spec_parse(stream)),
{
    let start = init_m::<T, U>();
    lemma_run_wf(start, stream);
    let end = run_m(start, stream);
    lemma_close_to_wf(end, 0);
    lemma_close_to_shape(end, 0);
}

/// For a well-nested token stream, the parsed forest holds exactly one
/// root node per top-level construct: per token at depth zero that is not
/// an attacher.
pub proof fn lemma_root_count<T, U>(stream: Seq<(usize, LineToken<T, U>)>)
    requires
        well_nested(init_m::<T, U>(), stream),
    ensures
        spec_parse(stream).len() == count_top_level(stream),
{
    let start = init_m::<T, U>();
    assert(root_total(start) == 0);
    lemma_run_keeps(start, stream);
    let end = run_m(start, stream);
    lemma_close_to_keeps(end, 0);
    let closed = close_to_m(end, 0);
    assert(closed.fragments.len() == 0);
    assert(root_total(closed) == closed.scopes[0].len());
}

} // verus!
