use chearmyp::node::Node;
use chearmyp::parse::parse;
use chearmyp::parse::LineToken;
use chearmyp::parse::ScopeStack;

type T = &'static str;
type U = Vec<&'static str>;
type V = Node<T, U>;
type Tok = LineToken<T, U>;

#[test]
fn parse_of_empty_stream_yields_empty_forest() {
    let forest = parse::<T, U>(vec![]);
    assert_eq!(forest, Vec::<V>::new());
}

#[test]
fn fresh_scope_stack_finishes_into_empty_forest() {
    let scope_stack = ScopeStack::<T, U>::new();
    assert_eq!(scope_stack.finalize(), Vec::<V>::new());
}

#[test]
fn one_root_node_per_top_level_construct() {
    let stream: Vec<(usize, Tok)> = vec![
        (0, LineToken::Complex("greeting")),
        (1, LineToken::Attacher("to", "everyone", vec![])),
        (1, LineToken::Simplex("wave")),
        (0, LineToken::LineComment("done")),
    ];
    let forest = parse(stream);
    assert_eq!(
        forest,
        vec![
            Node::Complex(
                "greeting",
                vec![Node::Attacher("to", "everyone", vec![])],
                vec![Node::Simplex("wave", vec![])],
            ),
            Node::LineComment("done"),
        ]
    );
}

#[test]
fn attacher_attaches_to_simplex_at_the_same_level() {
    let stream: Vec<(usize, Tok)> = vec![
        (0, LineToken::Simplex("s")),
        (0, LineToken::Attacher("k", "v", vec![])),
    ];
    let forest = parse(stream);
    assert_eq!(forest, vec![Node::Simplex("s", vec![Node::Attacher("k", "v", vec![])])]);
}

#[test]
fn attacher_attaches_to_the_nearest_construct() {
    let stream: Vec<(usize, Tok)> = vec![
        (0, LineToken::Complex("p")),
        (1, LineToken::Simplex("q")),
        (1, LineToken::Attacher("k", "v", vec![])),
    ];
    let forest = parse(stream);
    assert_eq!(
        forest,
        vec![Node::Complex(
            "p",
            vec![],
            vec![Node::Simplex("q", vec![Node::Attacher("k", "v", vec![])])],
        )]
    );
}

#[test]
fn pass_through_tokens_stay_in_order() {
    let stream: Vec<(usize, Tok)> = vec![
        (0, LineToken::BlockComment(vec!["x", "y"])),
        (0, LineToken::LineOthertongue("z")),
        (0, LineToken::BlockOthertongue(vec![])),
    ];
    let forest = parse(stream);
    assert_eq!(
        forest,
        vec![
            Node::BlockComment(vec!["x", "y"]),
            Node::LineOthertongue("z"),
            Node::BlockOthertongue(vec![]),
        ]
    );
}

#[test]
fn dedent_by_several_levels_closes_each_in_turn() {
    let stream: Vec<(usize, Tok)> = vec![
        (0, LineToken::Complex("a")),
        (1, LineToken::Complex("b")),
        (2, LineToken::Simplex("c")),
        (0, LineToken::Simplex("d")),
    ];
    let forest = parse(stream);
    assert_eq!(
        forest,
        vec![
            Node::Complex(
                "a",
                vec![],
                vec![Node::Complex("b", vec![], vec![Node::Simplex("c", vec![])])],
            ),
            Node::Simplex("d", vec![]),
        ]
    );
}

#[test]
fn one_dedent_of_k_levels_equals_k_single_dedents() {
    let tokens: Vec<(usize, Tok)> = vec![
        (0, LineToken::Complex("a")),
        (1, LineToken::Complex("b")),
        (2, LineToken::Simplex("c")),
    ];

    let mut at_once = ScopeStack::<T, U>::new();
    for (level, token) in tokens {
        at_once.receive_token(level, token);
    }
    let mut stepwise = ScopeStack::<T, U>::new();
    stepwise.receive_token(0, LineToken::Complex("a"));
    stepwise.receive_token(1, LineToken::Complex("b"));
    stepwise.receive_token(2, LineToken::Simplex("c"));

    at_once.minimize_scope_level_by(3);
    stepwise.minimize_scope_level_by(1);
    stepwise.minimize_scope_level_by(1);
    stepwise.minimize_scope_level_by(1);

    let expected = vec![Node::Complex(
        "a",
        vec![],
        vec![Node::Complex("b", vec![], vec![Node::Simplex("c", vec![])])],
    )];
    assert_eq!(at_once.finalize(), expected);
    assert_eq!(stepwise.finalize(), expected);
}

#[test]
fn attacher_without_construct_falls_into_the_scope() {
    let stream: Vec<(usize, Tok)> = vec![(0, LineToken::Attacher("k", "v", vec![]))];
    let forest = parse(stream);
    assert_eq!(forest, vec![Node::Attacher("k", "v", vec![])]);
}

#[test]
fn attacher_comments_ride_along() {
    let stream: Vec<(usize, Tok)> = vec![
        (0, LineToken::Simplex("s")),
        (1, LineToken::Attacher("k", "v", vec!["remark"])),
    ];
    let forest = parse(stream);
    assert_eq!(forest, vec![Node::Simplex("s", vec![Node::Attacher("k", "v", vec!["remark"])])]);
}
