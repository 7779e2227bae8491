use std::ops::Range;

use chearmyp::node::Node;
use chearmyp::node::NodeKind;

type T = Range<u8>;
type U = Vec<T>;
type V = Node<T, U>;
type W = Vec<V>;

#[test]
fn can_get_label() {
    let attacher = V::new_attacher(0..1, 2..3, U::new());

    let label = attacher.label();

    assert_eq!(label, &(0..1));
}

#[test]
fn can_get_content() {
    let attacher = V::new_attacher(4..5, 6..7, U::new());

    let content = attacher.content();

    assert_eq!(content, &(6..7));
}

#[test]
fn can_get_comments() {
    let attacher = V::new_attacher(8..9, 10..11, U::new());

    let comments = attacher.comments();

    assert_eq!(comments, &U::new());
}

#[test]
fn can_get_block_comment() {
    let block_comment = V::new_block_comment(vec![12..13]);

    let block = block_comment.block();

    assert_eq!(block, &vec![12..13]);
}

#[test]
fn can_get_block_othertongue() {
    let block_othertongue = V::new_block_othertongue(vec![16..17]);

    let block = block_othertongue.block();

    assert_eq!(block, &vec![16..17]);
}

#[test]
fn can_get_line_comment() {
    let line_comment = V::new_line_comment(20..21);

    let line = line_comment.line();

    assert_eq!(line, &(20..21));
}

#[test]
fn can_get_line_othertongue() {
    let line_othertongue = V::new_line_othertongue(24..25);

    let line = line_othertongue.line();

    assert_eq!(line, &(24..25));
}

#[test]
fn can_get_complex_name() {
    let complex = V::new_complex(30..31, W::new(), W::new());

    let name = complex.name();

    assert_eq!(name, &(30..31));
}

#[test]
fn can_get_simplex_name() {
    let simplex = V::new_simplex(34..35, W::new());

    let name = simplex.name();

    assert_eq!(name, &(34..35));
}

#[test]
fn can_consume_attacher() {
    let attacher = V::new_attacher(0..1, 2..3, U::new());

    let consumed_node = attacher.consume_attacher();

    assert_eq!(consumed_node, (0..1, 2..3, U::new()));
}

#[test]
fn can_consume_block_comment() {
    let block_comment = V::new_block_comment(vec![12..13]);

    let consumed_node = block_comment.consume_block();

    assert_eq!(consumed_node, vec![12..13]);
}

#[test]
fn can_consume_block_othertongue() {
    let block = V::new_block_othertongue(vec![16..17]);

    let consumed_node = block.consume_block();

    assert_eq!(consumed_node, vec![16..17]);
}

#[test]
fn can_consume_line_comment() {
    let line_comment = V::new_line_comment(20..21);

    let consumed_node = line_comment.consume_line();

    assert_eq!(consumed_node, 20..21);
}

#[test]
fn can_consume_line_othertongue() {
    let line_othertongue = V::new_line_othertongue(24..25);

    let consumed_node = line_othertongue.consume_line();

    assert_eq!(consumed_node, 24..25);
}

#[test]
fn can_consume_complex() {
    let complex = V::new_complex(30..31, W::new(), W::new());

    let consumed_node = complex.consume_complex();

    assert_eq!(consumed_node, (30..31, W::new(), W::new()));
}

#[test]
fn can_consume_simplex_name() {
    let simplex = V::new_simplex(34..35, W::new());

    let consumed_node = simplex.consume_simplex();

    assert_eq!(consumed_node, (34..35, W::new()));
}

#[test]
fn can_create_simplex_and_confirm() {
    let simplex = V::new_simplex(0..1, W::new());

    let kind = simplex.kind();

    assert_eq!(kind, NodeKind::Simplex);
}

#[test]
fn can_create_complex_and_confirm() {
    let complex = V::new_complex(2..3, W::new(), W::new());

    let kind = complex.kind();

    assert_eq!(kind, NodeKind::Complex);
}

#[test]
fn can_create_attacher_and_confirm() {
    let attacher = V::new_attacher(4..5, 6..7, U::new());

    let kind = attacher.kind();

    assert_eq!(kind, NodeKind::Attacher);
}

#[test]
fn can_create_line_comment_and_confirm() {
    let line_comment = V::new_line_comment(8..9);

    let kind = line_comment.kind();

    assert_eq!(kind, NodeKind::LineComment);
}

#[test]
fn can_create_block_comment_and_confirm() {
    let block_comment = V::new_block_comment(U::new());

    let kind = block_comment.kind();

    assert_eq!(kind, NodeKind::BlockComment);
}

#[test]
fn can_create_line_othertongue_and_confirm() {
    let line_othertongue = V::new_line_othertongue(10..11);

    let kind = line_othertongue.kind();

    assert_eq!(kind, NodeKind::LineOthertongue);
}

#[test]
fn can_create_block_othertongue_and_confirm() {
    let block_othertongue = V::new_block_othertongue(U::new());

    let kind = block_othertongue.kind();

    assert_eq!(kind, NodeKind::BlockOthertongue);
}

#[test]
fn accessors_hand_attachers_and_children_back() {
    let attacher = V::new_attacher(0..1, 2..3, U::new());
    let simplex = V::new_simplex(4..5, vec![attacher]);
    assert_eq!(simplex.attachers().len(), 1);
    assert_eq!(simplex.attachers()[0].kind(), NodeKind::Attacher);

    let child = V::new_line_comment(6..7);
    let complex = V::new_complex(8..9, W::new(), vec![child]);
    assert_eq!(complex.nodes().len(), 1);
    assert_eq!(complex.nodes()[0], V::new_line_comment(6..7));
}
