//! The node tree that parsing produces.
//!
//! A [`Node`] is parameterized by an atomic text-span type `T` (for example a
//! byte range into the source) and a span-collection type `U` (the payload of
//! a fenced block).  Accessors assume the node has the matching kind; callers
//! branch on [`Node::kind`] first, and the contracts demand it.

use vstd::prelude::*;

verus! {

/// The discriminator of a [`Node`], returned by [`Node::kind`].
#[derive(Debug, Clone, Copy, PartialEq, Eq, Structural)]
pub enum NodeKind {
    Simplex,
    Complex,
    Attacher,
    LineComment,
    BlockComment,
    LineOthertongue,
    BlockOthertongue,
}

/// A node of the parsed tree.
///
/// - `LineComment` and `LineOthertongue` hold one line of pass-through
///   content.
/// - `BlockComment` and `BlockOthertongue` hold the collected lines of a
///   fenced block.
/// - `Simplex(name, attachers)` is a leaf construct: a name plus its
///   annotations, no children.
/// - `Complex(name, attachers, children)` is a construct with annotations and
///   a subtree.
/// - `Attacher(label, content, comments)` is an annotation; it never holds
///   annotations of its own.
#[derive(Debug, PartialEq)]
pub enum Node<T, U> {
    LineComment(T),
    BlockComment(U),
    Simplex(T, Vec<Node<T, U>>),
    Complex(T, Vec<Node<T, U>>, Vec<Node<T, U>>),
    Attacher(T, T, U),
    LineOthertongue(T),
    BlockOthertongue(U),
}

impl<T, U> Node<T, U> {
    /// The kind of this node, as a spec-level value.
    pub open spec fn kind_spec(&self) -> NodeKind {
        match self {
            Node::Simplex(_, _) => NodeKind::Simplex,
            Node::Complex(_, _, _) => NodeKind::Complex,
            Node::Attacher(_, _, _) => NodeKind::Attacher,
            Node::LineComment(_) => NodeKind::LineComment,
            Node::BlockComment(_) => NodeKind::BlockComment,
            Node::LineOthertongue(_) => NodeKind::LineOthertongue,
            Node::BlockOthertongue(_) => NodeKind::BlockOthertongue,
        }
    }

    /// The discriminator of this node.
    pub fn kind(&self) -> (k: NodeKind)
        ensures
            k == self.kind_spec(),
    {
        match self {
            Node::Simplex(_, _) => NodeKind::Simplex,
            Node::Complex(_, _, _) => NodeKind::Complex,
            Node::Attacher(_, _, _) => NodeKind::Attacher,
            Node::LineComment(_) => NodeKind::LineComment,
            Node::BlockComment(_) => NodeKind::BlockComment,
            Node::LineOthertongue(_) => NodeKind::LineOthertongue,
            Node::BlockOthertongue(_) => NodeKind::BlockOthertongue,
        }
    }

    /// Creates a single-line comment node.
    pub fn new_line_comment(line: T) -> (n: Self)
        ensures
            n == Node::<T, U>::LineComment(line),
    {
        Node::LineComment(line)
    }

    /// Creates a single-line othertongue node.
    pub fn new_line_othertongue(line: T) -> (n: Self)
        ensures
            n == Node::<T, U>::LineOthertongue(line),
    {
        Node::LineOthertongue(line)
    }

    /// Creates a block comment node from the collected lines of a fenced
    /// block.
    pub fn new_block_comment(collection: U) -> (n: Self)
        ensures
            n == Node::<T, U>::BlockComment(collection),
    {
        Node::BlockComment(collection)
    }

    /// Creates a block othertongue node from the collected lines of a fenced
    /// block.
    pub fn new_block_othertongue(collection: U) -> (n: Self)
        ensures
            n == Node::<T, U>::BlockOthertongue(collection),
    {
        Node::BlockOthertongue(collection)
    }

    /// Creates an attacher node: a label, its content, and the comments seen
    /// with it.
    pub fn new_attacher(label: T, content: T, comments: U) -> (n: Self)
        ensures
            n == Node::<T, U>::Attacher(label, content, comments),
    {
        Node::Attacher(label, content, comments)
    }

    /// Creates a simplex node: a name with its attachers, no children.
    pub fn new_simplex(name: T, attachers: Vec<Node<T, U>>) -> (n: Self)
        ensures
            n == Node::<T, U>::Simplex(name, attachers),
    {
        Node::Simplex(name, attachers)
    }

    /// Creates a complex node: a name with its attachers and its children.
    pub fn new_complex(name: T, attachers: Vec<Node<T, U>>, nodes: Vec<Node<T, U>>) -> (n: Self)
        ensures
            n == Node::<T, U>::Complex(name, attachers, nodes),
    {
        Node::Complex(name, attachers, nodes)
    }

    /// The name of a simplex or complex node.
    pub fn name(&self) -> (r: &T)
        requires
            self.kind_spec() == NodeKind::Simplex || self.kind_spec() == NodeKind::Complex,
        ensures
            self is Simplex ==> r == self->Simplex_0,
            self is Complex ==> r == self->Complex_0,
    {
        match self {
            Node::Simplex(name, _) => name,
            Node::Complex(name, _, _) => name,
            _ => unreached(),
        }
    }

    /// The attachers of a simplex or complex node.
    pub fn attachers(&self) -> (r: &Vec<Node<T, U>>)
        requires
            self.kind_spec() == NodeKind::Simplex || self.kind_spec() == NodeKind::Complex,
        ensures
            self is Simplex ==> r == self->Simplex_1,
            self is Complex ==> r == self->Complex_1,
    {
        match self {
            Node::Simplex(_, attachers) => attachers,
            Node::Complex(_, attachers, _) => attachers,
            _ => unreached(),
        }
    }

    /// The children of a complex node.
    pub fn nodes(&self) -> (r: &Vec<Node<T, U>>)
        requires
            self.kind_spec() == NodeKind::Complex,
        ensures
            r == self->Complex_2,
    {
        match self {
            Node::Complex(_, _, nodes) => nodes,
            _ => unreached(),
        }
    }

    /// The line of a line comment or line othertongue node.
    pub fn line(&self) -> (r: &T)
        requires
            self.kind_spec() == NodeKind::LineComment
                || self.kind_spec() == NodeKind::LineOthertongue,
        ensures
            self is LineComment ==> r == self->LineComment_0,
            self is LineOthertongue ==> r == self->LineOthertongue_0,
    {
        match self {
            Node::LineComment(line) => line,
            Node::LineOthertongue(line) => line,
            _ => unreached(),
        }
    }

    /// The collected lines of a block comment or block othertongue node.
    pub fn block(&self) -> (r: &U)
        requires
            self.kind_spec() == NodeKind::BlockComment
                || self.kind_spec() == NodeKind::BlockOthertongue,
        ensures
            self is BlockComment ==> r == self->BlockComment_0,
            self is BlockOthertongue ==> r == self->BlockOthertongue_0,
    {
        match self {
            Node::BlockComment(block) => block,
            Node::BlockOthertongue(block) => block,
            _ => unreached(),
        }
    }

    /// The label of an attacher node.
    pub fn label(&self) -> (r: &T)
        requires
            self.kind_spec() == NodeKind::Attacher,
        ensures
            r == self->Attacher_0,
    {
        match self {
            Node::Attacher(label, _, _) => label,
            _ => unreached(),
        }
    }

    /// The content of an attacher node.
    pub fn content(&self) -> (r: &T)
        requires
            self.kind_spec() == NodeKind::Attacher,
        ensures
            r == self->Attacher_1,
    {
        match self {
            Node::Attacher(_, content, _) => content,
            _ => unreached(),
        }
    }

    /// The comments of an attacher node.
    pub fn comments(&self) -> (r: &U)
        requires
            self.kind_spec() == NodeKind::Attacher,
        ensures
            r == self->Attacher_2,
    {
        match self {
            Node::Attacher(_, _, comments) => comments,
            _ => unreached(),
        }
    }

    /// Consumes a block comment or block othertongue node, handing its lines
    /// out.
    pub fn consume_block(self) -> (r: U)
        requires
            self.kind_spec() == NodeKind::BlockComment
                || self.kind_spec() == NodeKind::BlockOthertongue,
        ensures
            self is BlockComment ==> r == self->BlockComment_0,
            self is BlockOthertongue ==> r == self->BlockOthertongue_0,
    {
        match self {
            Node::BlockComment(block) => block,
            Node::BlockOthertongue(block) => block,
            _ => unreached(),
        }
    }

    /// Consumes a line comment or line othertongue node, handing its line
    /// out.
    pub fn consume_line(self) -> (r: T)
        requires
            self.kind_spec() == NodeKind::LineComment
                || self.kind_spec() == NodeKind::LineOthertongue,
        ensures
            self is LineComment ==> r == self->LineComment_0,
            self is LineOthertongue ==> r == self->LineOthertongue_0,
    {
        match self {
            Node::LineComment(line) => line,
            Node::LineOthertongue(line) => line,
            _ => unreached(),
        }
    }

    /// Consumes a simplex node, handing its name and attachers out.
    pub fn consume_simplex(self) -> (r: (T, Vec<Node<T, U>>))
        requires
            self.kind_spec() == NodeKind::Simplex,
        ensures
            r.0 == self->Simplex_0,
            r.1 == self->Simplex_1,
    {
        match self {
            Node::Simplex(name, attachers) => (name, attachers),
            _ => unreached(),
        }
    }

    /// Consumes a complex node, handing its name, attachers and children out.
    pub fn consume_complex(self) -> (r: (T, Vec<Node<T, U>>, Vec<Node<T, U>>))
        requires
            self.kind_spec() == NodeKind::Complex,
        ensures
            r.0 == self->Complex_0,
            r.1 == self->Complex_1,
            r.2 == self->Complex_2,
    {
        match self {
            Node::Complex(name, attachers, nodes) => (name, attachers, nodes),
            _ => unreached(),
        }
    }

    /// Consumes an attacher node, handing its label, content and comments
    /// out.
    pub fn consume_attacher(self) -> (r: (T, T, U))
        requires
            self.kind_spec() == NodeKind::Attacher,
        ensures
            r.0 == self->Attacher_0,
            r.1 == self->Attacher_1,
            r.2 == self->Attacher_2,
    {
        match self {
            Node::Attacher(label, content, comments) => (label, content, comments),
            _ => unreached(),
        }
    }
}

/// The mathematical model of a [`Node`]: every vector of child nodes becomes
/// a sequence.  Contracts about trees and forests are stated over this type.
pub enum NodeM<T, U> {
    LineComment(T),
    BlockComment(U),
    Simplex(T, Seq<NodeM<T, U>>),
    Complex(T, Seq<NodeM<T, U>>, Seq<NodeM<T, U>>),
    Attacher(T, T, U),
    LineOthertongue(T),
    BlockOthertongue(U),
}

/// The model of one node.
pub open spec fn node_view<T, U>(n: Node<T, U>) -> NodeM<T, U>
    decreases n,
{
    match n {
        Node::LineComment(t) => NodeM::LineComment(t),
        Node::BlockComment(u) => NodeM::BlockComment(u),
        Node::Simplex(name, attachers) => NodeM::Simplex(name, nodes_view(attachers@)),
        Node::Complex(name, attachers, children) => NodeM::Complex(
            name,
            nodes_view(attachers@),
            nodes_view(children@),
        ),
        Node::Attacher(label, content, comments) => NodeM::Attacher(label, content, comments),
        Node::LineOthertongue(t) => NodeM::LineOthertongue(t),
        Node::BlockOthertongue(u) => NodeM::BlockOthertongue(u),
    }
}

/// The model of a sequence of nodes, element by element.
pub open spec fn nodes_view<T, U>(s: Seq<Node<T, U>>) -> Seq<NodeM<T, U>>
    decreases s,
{
    if s.len() == 0 {
        Seq::<NodeM<T, U>>::empty()
    } else {
        nodes_view(s.drop_last()).push(node_view(s.last()))
    }
}

/// The model of a sequence keeps its length and models each element in
/// place.
pub proof fn lemma_nodes_view_index<T, U>(s: Seq<Node<T, U>>)
    ensures
        nodes_view(s).len() == s.len(),
        forall|i: int| 0 <= i < s.len() ==> nodes_view(s)[i] == node_view(s[i]),
    decreases s,
{
    if s.len() > 0 {
        lemma_nodes_view_index(s.drop_last());
        assert(forall|i: int| 0 <= i < s.len() - 1 ==> s.drop_last()[i] == s[i]);
    }
}

/// Appending one node appends its model.
pub proof fn lemma_nodes_view_push<T, U>(s: Seq<Node<T, U>>, n: Node<T, U>)
    ensures
        nodes_view(s.push(n)) == nodes_view(s).push(node_view(n)),
{
    assert(s.push(n).drop_last() =~= s);
    assert(s.push(n).last() == n);
}

/// Whether every node of the sequence is of the attacher kind.
pub open spec fn all_attachers_m<T, U>(s: Seq<NodeM<T, U>>) -> bool {
    forall|i: int| 0 <= i < s.len() ==> s[i] is Attacher
}

/// A well-formed model node: its attachers, if it has any, are attacher
/// nodes alone, and all of its attachers and children are well formed in
/// turn.  A children sequence may hold any kind.
pub open spec fn node_wf_m<T, U>(n: NodeM<T, U>) -> bool
    decreases n,
{
    match n {
        NodeM::Simplex(_, attachers) => all_attachers_m(attachers) && nodes_wf_m(attachers),
        NodeM::Complex(_, attachers, children) => all_attachers_m(attachers) && nodes_wf_m(
            attachers,
        ) && nodes_wf_m(children),
        _ => true,
    }
}

/// Whether every node of the sequence is well formed.
pub open spec fn nodes_wf_m<T, U>(s: Seq<NodeM<T, U>>) -> bool
    decreases s,
{
    s.len() == 0 || (nodes_wf_m(s.drop_last()) && node_wf_m(s.last()))
}

/// A sequence is well formed exactly when a pushed extension of it is well
/// formed together with the pushed node.
pub proof fn lemma_nodes_wf_push<T, U>(s: Seq<NodeM<T, U>>, n: NodeM<T, U>)
    ensures
        nodes_wf_m(s.push(n)) <==> (nodes_wf_m(s) && node_wf_m(n)),
{
    assert(s.push(n).drop_last() =~= s);
    assert(s.push(n).last() == n);
}

/// A concatenation is well formed exactly when both halves are.
pub proof fn lemma_nodes_wf_concat<T, U>(a: Seq<NodeM<T, U>>, b: Seq<NodeM<T, U>>)
    ensures
        nodes_wf_m(a + b) <==> (nodes_wf_m(a) && nodes_wf_m(b)),
    decreases b,
{
    if b.len() == 0 {
        assert(a + b =~= a);
    } else {
        lemma_nodes_wf_concat(a, b.drop_last());
        assert((a + b).drop_last() =~= a + b.drop_last());
        assert((a + b).last() == b.last());
        lemma_nodes_wf_push(a + b.drop_last(), b.last());
        assert((a + b.drop_last()).push(b.last()) =~= a + b);
        assert(b.drop_last().push(b.last()) =~= b);
        lemma_nodes_wf_push(b.drop_last(), b.last());
    }
}

/// Concatenating node sequences concatenates their models.
pub proof fn lemma_nodes_view_concat<T, U>(a: Seq<Node<T, U>>, b: Seq<Node<T, U>>)
    ensures
        nodes_view(a + b) == nodes_view(a) + nodes_view(b),
    decreases b,
{
    if b.len() == 0 {
        assert(a + b =~= a);
        assert(nodes_view(a) + nodes_view(b) =~= nodes_view(a));
    } else {
        lemma_nodes_view_concat(a, b.drop_last());
        assert((a + b).drop_last() =~= a + b.drop_last());
        assert((a + b).last() == b.last());
        lemma_nodes_view_index(b);
        assert(nodes_view(a) + nodes_view(b) =~= (nodes_view(a) + nodes_view(
            b.drop_last(),
        )).push(node_view(b.last())));
    }
}

} // verus!
