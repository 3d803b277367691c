use fall::lex::Token;
use fall::node_type::NodeType;
use fall::syn::{collect_error, expr_ok, exprs_ok, indices_ok, Expr, Parser, SynRule};
use fall::text::{TextRange, TextUnit};
use fall::tree_builder::{Node, TokenSequence};

const A: NodeType = NodeType(10);
const B: NodeType = NodeType(11);
const C: NodeType = NodeType(12);
const TOP: NodeType = NodeType(20);
const ITEM: NodeType = NodeType(21);

/// The node types by index: 0 error, 1 white space, 2 A, 3 B, 4 C, 5 TOP, 6 ITEM.
fn types() -> Vec<NodeType> {
    vec![NodeType::error(), NodeType::whitespace(), A, B, C, TOP, ITEM]
}

/// One token of one byte for each type.
fn tokens(tys: &[NodeType]) -> Vec<Token> {
    tys.iter()
        .enumerate()
        .map(|(i, ty)| Token {
            ty: *ty,
            range: TextRange::from_to(TextUnit(i as u32), TextUnit(i as u32 + 1)),
        })
        .collect()
}

fn leaf(ty: NodeType, token_idx: usize) -> Node {
    Node::Leaf { ty, token_idx }
}

fn node(ty: Option<NodeType>, children: Vec<Node>) -> Node {
    let len = children.iter().map(|c| c.len()).sum();
    Node::Composite { ty, children, len }
}

fn group(children: Vec<Node>) -> Node {
    node(None, children)
}

fn error(children: Vec<Node>) -> Node {
    node(Some(NodeType::error()), children)
}

/// Parses `expr` at the start of `input` with the rules `rules`; gives the
/// node and the number of tokens that were taken.
fn run_with(rules: &[SynRule], expr: &Expr, input: &[NodeType], depth: usize) -> Option<(Node, usize)> {
    let types = types();
    let parser = Parser::new(&types, rules);
    assert!(expr_ok(expr, rules.len(), types.len()));
    let toks = tokens(input);
    let start = TokenSequence::new(&toks);
    parser.parse_exp(expr, start, depth).map(|(n, rest)| {
        assert_eq!(rest.end, toks.len());
        assert_eq!(n.len(), rest.pos);
        (n, rest.pos)
    })
}

fn run(expr: &Expr, input: &[NodeType]) -> Option<(Node, usize)> {
    run_with(&[], expr, input, 100)
}

#[test]
fn token_takes_one_token_of_its_type() {
    assert_eq!(run(&Expr::Token(2), &[A, B]), Some((leaf(A, 0), 1)));
    assert_eq!(run(&Expr::Token(3), &[A, B]), None);
    assert_eq!(run(&Expr::Token(2), &[]), None);
}

#[test]
fn or_takes_the_first_alternative_that_parses() {
    let e = Expr::Or(vec![Expr::Token(3), Expr::Token(2), Expr::Eof]);
    assert_eq!(run(&e, &[A]), Some((leaf(A, 0), 1)));
    assert_eq!(run(&e, &[B]), Some((leaf(B, 0), 1)));
    assert_eq!(run(&e, &[]), Some((group(vec![]), 0)));
    assert_eq!(run(&e, &[C]), None);
    assert_eq!(run(&Expr::Or(vec![]), &[A]), None);
}

#[test]
fn or_restores_the_cursor_before_the_next_alternative() {
    // `A B` fails behind `A`; `A C` starts at `A` again
    let e = Expr::Or(vec![
        Expr::And(vec![Expr::Token(2), Expr::Token(3)], None),
        Expr::And(vec![Expr::Token(2), Expr::Token(4)], None),
    ]);
    assert_eq!(run(&e, &[A, C]), Some((group(vec![leaf(A, 0), leaf(C, 1)]), 2)));
}

#[test]
fn and_takes_its_parts_in_order() {
    let e = Expr::And(vec![Expr::Token(2), Expr::Token(3)], None);
    assert_eq!(run(&e, &[A, B, C]), Some((group(vec![leaf(A, 0), leaf(B, 1)]), 2)));
    assert_eq!(run(&e, &[A, C]), None);
    assert_eq!(run(&e, &[B]), None);
    assert_eq!(run(&Expr::And(vec![], None), &[A]), Some((group(vec![]), 0)));
}

#[test]
fn and_past_its_commit_leaves_an_error_and_stops() {
    let e = Expr::And(vec![Expr::Token(2), Expr::Token(3), Expr::Token(4)], Some(1));
    // the second part fails
    assert_eq!(run(&e, &[A, C]), Some((group(vec![leaf(A, 0), error(vec![])]), 1)));
    // the third part fails
    assert_eq!(
        run(&e, &[A, B, B]),
        Some((group(vec![leaf(A, 0), leaf(B, 1), error(vec![])]), 2))
    );
    // before the commit a failure is a failure
    assert_eq!(run(&e, &[B, B, C]), None);
    assert_eq!(
        run(&e, &[A, B, C]),
        Some((group(vec![leaf(A, 0), leaf(B, 1), leaf(C, 2)]), 3))
    );
}

#[test]
fn and_committed_from_the_start_never_fails() {
    let e = Expr::And(vec![Expr::Token(2)], Some(0));
    assert_eq!(run(&e, &[B]), Some((group(vec![error(vec![])]), 0)));
    assert_eq!(run(&e, &[]), Some((group(vec![error(vec![])]), 0)));
}

#[test]
fn opt_parses_nothing_where_its_body_fails() {
    let e = Expr::Opt(Box::new(Expr::Token(2)));
    assert_eq!(run(&e, &[A]), Some((leaf(A, 0), 1)));
    assert_eq!(run(&e, &[B]), Some((group(vec![]), 0)));
    assert_eq!(run(&e, &[]), Some((group(vec![]), 0)));
}

#[test]
fn rep_takes_as_many_as_parse() {
    let e = Expr::Rep(Box::new(Expr::Token(2)));
    assert_eq!(run(&e, &[]), Some((group(vec![]), 0)));
    assert_eq!(run(&e, &[B]), Some((group(vec![]), 0)));
    assert_eq!(
        run(&e, &[A, A, A, B, A]),
        Some((group(vec![leaf(A, 0), leaf(A, 1), leaf(A, 2)]), 3))
    );
}

#[test]
fn rep_ends_at_a_round_that_takes_nothing() {
    let e = Expr::Rep(Box::new(Expr::Opt(Box::new(Expr::Token(2)))));
    assert_eq!(run(&e, &[]), Some((group(vec![group(vec![])]), 0)));
    assert_eq!(run(&e, &[B]), Some((group(vec![group(vec![])]), 0)));
    assert_eq!(
        run(&e, &[A, A, B]),
        Some((group(vec![leaf(A, 0), leaf(A, 1), group(vec![])]), 2))
    );
    // a body that leaves an error without taking a token ends it too
    let committed = Expr::Rep(Box::new(Expr::And(vec![Expr::Token(2)], Some(0))));
    assert_eq!(
        run(&committed, &[A, B]),
        Some((group(vec![group(vec![leaf(A, 0)]), group(vec![error(vec![])])]), 1))
    );
}

#[test]
fn not_takes_any_token_but_those_named() {
    let e = Expr::Not(vec![2, 3]);
    assert_eq!(run(&e, &[C, A]), Some((leaf(C, 0), 1)));
    assert_eq!(run(&e, &[A]), None);
    assert_eq!(run(&e, &[B]), None);
    assert_eq!(run(&e, &[]), None);
    assert_eq!(run(&Expr::Not(vec![]), &[A]), Some((leaf(A, 0), 1)));
}

#[test]
fn ahead_looks_without_taking() {
    let e = Expr::Ahead(vec![2, 3]);
    assert_eq!(run(&e, &[A]), Some((group(vec![]), 0)));
    assert_eq!(run(&e, &[B, C]), Some((group(vec![]), 0)));
    assert_eq!(run(&e, &[C]), None);
    assert_eq!(run(&e, &[]), None);
    assert_eq!(run(&Expr::Ahead(vec![]), &[A]), None);
}

#[test]
fn eof_holds_at_the_end_only() {
    assert_eq!(run(&Expr::Eof, &[]), Some((group(vec![]), 0)));
    assert_eq!(run(&Expr::Eof, &[A]), None);
    let last = Expr::And(vec![Expr::Token(2), Expr::Eof], None);
    assert_eq!(run(&last, &[A]), Some((group(vec![leaf(A, 0), group(vec![])]), 1)));
    assert_eq!(run(&last, &[A, A]), None);
}

#[test]
fn skip_until_wraps_what_it_skips() {
    let e = Expr::SkipUntil(vec![4]);
    assert_eq!(run(&e, &[A, B, C, A]), Some((error(vec![leaf(A, 0), leaf(B, 1)]), 2)));
    assert_eq!(run(&e, &[A, B]), Some((error(vec![leaf(A, 0), leaf(B, 1)]), 2)));
    // nothing to skip: no error
    assert_eq!(run(&e, &[C, A]), Some((group(vec![]), 0)));
    assert_eq!(run(&e, &[]), Some((group(vec![]), 0)));
}

fn layer(outer: Expr, inner: Expr) -> Expr {
    Expr::Layer(Box::new(outer), Box::new(inner))
}

#[test]
fn layer_parses_the_inner_expression_on_the_tokens_of_the_outer() {
    // the outer expression takes the tokens up to `C`
    let outer = Expr::Rep(Box::new(Expr::Not(vec![4])));
    // all of them parsed
    let all = Expr::Rep(Box::new(Expr::Token(2)));
    assert_eq!(
        run(&layer(outer, all), &[A, A, C]),
        Some((group(vec![group(vec![leaf(A, 0), leaf(A, 1)])]), 2))
    );
}

#[test]
fn layer_wraps_what_the_inner_expression_leaves() {
    let outer = || Expr::Rep(Box::new(Expr::Not(vec![4])));
    let one = Expr::Token(2);
    assert_eq!(
        run(&layer(outer(), one), &[A, B, A, C, A]),
        Some((group(vec![leaf(A, 0), error(vec![leaf(B, 1), leaf(A, 2)])]), 3))
    );
    // the inner expression fails: it leaves everything
    assert_eq!(
        run(&layer(outer(), Expr::Token(3)), &[A, B, C]),
        Some((group(vec![error(vec![leaf(A, 0), leaf(B, 1)])]), 2))
    );
    // an outer expression that takes nothing leaves nothing to wrap
    assert_eq!(run(&layer(outer(), Expr::Token(3)), &[C]), Some((group(vec![]), 0)));
}

#[test]
fn layer_hides_the_tokens_behind_the_outer_expression() {
    // the inner repetition would take the last `A` too, if it saw it
    let outer = Expr::And(vec![Expr::Token(2), Expr::Token(2)], None);
    let inner = Expr::Rep(Box::new(Expr::Token(2)));
    assert_eq!(
        run(&layer(outer, inner), &[A, A, A]),
        Some((group(vec![group(vec![leaf(A, 0), leaf(A, 1)])]), 2))
    );
    // and the end of the layer is the end of the text for it
    let outer = Expr::Token(2);
    let inner = Expr::And(vec![Expr::Token(2), Expr::Eof], None);
    assert_eq!(
        run(&layer(outer, inner), &[A, B]),
        Some((group(vec![group(vec![leaf(A, 0), group(vec![])])]), 1))
    );
}

#[test]
fn layer_fails_where_the_outer_expression_fails() {
    assert_eq!(run(&layer(Expr::Token(2), Expr::Eof), &[B]), None);
}

#[test]
fn layer_is_the_same_behind_it_whatever_goes_on_inside() {
    let outer = || Expr::And(vec![Expr::Token(2), Expr::Token(3)], None);
    let input = [A, B, C];
    let inners = vec![
        Expr::Token(2),
        Expr::Token(4),
        Expr::Eof,
        Expr::Rep(Box::new(Expr::Not(vec![]))),
        Expr::And(vec![Expr::Token(2), Expr::Token(4)], Some(1)),
    ];
    for inner in inners {
        let (_, taken) = run(&layer(outer(), inner), &input).unwrap();
        assert_eq!(taken, 2);
    }
}

fn list_rules() -> Vec<SynRule> {
    vec![
        // 0: TOP, items up to the end
        SynRule { ty: Some(5), body: Expr::Rep(Box::new(Expr::Rule(1))) },
        // 1: ITEM, an `A` with an optional `B`
        SynRule {
            ty: Some(6),
            body: Expr::And(vec![Expr::Token(2), Expr::Opt(Box::new(Expr::Token(3)))], None),
        },
        // 2: a name for rule 1 that leaves no node
        SynRule { ty: None, body: Expr::Rule(1) },
        // 3: itself, for ever
        SynRule { ty: Some(6), body: Expr::Rule(3) },
    ]
}

#[test]
fn rule_wraps_its_body_in_a_node_of_its_type() {
    let rules = list_rules();
    assert_eq!(
        run_with(&rules, &Expr::Rule(1), &[A, B], 100),
        Some((node(Some(ITEM), vec![group(vec![leaf(A, 0), leaf(B, 1)])]), 2))
    );
    assert_eq!(
        run_with(&rules, &Expr::Rule(1), &[A, C], 100),
        Some((node(Some(ITEM), vec![group(vec![leaf(A, 0), group(vec![])])]), 1))
    );
    assert_eq!(run_with(&rules, &Expr::Rule(1), &[B], 100), None);
    // a rule without a type wraps its body in an anonymous node
    assert_eq!(
        run_with(&rules, &Expr::Rule(2), &[A], 100),
        Some((
            group(vec![node(Some(ITEM), vec![group(vec![leaf(A, 0), group(vec![])])])]),
            1
        ))
    );
}

#[test]
fn rule_fails_where_rules_are_nested_too_deep() {
    let rules = list_rules();
    assert_eq!(run_with(&rules, &Expr::Rule(1), &[A], 0), None);
    assert!(run_with(&rules, &Expr::Rule(1), &[A], 1).is_some());
    // rule 2 calls rule 1
    assert_eq!(run_with(&rules, &Expr::Rule(2), &[A], 1), None);
    assert!(run_with(&rules, &Expr::Rule(2), &[A], 2).is_some());
    // a rule that calls itself before it takes a token comes to an end
    assert_eq!(run_with(&rules, &Expr::Rule(3), &[A], 50), None);
}

#[test]
fn parse_wraps_the_tokens_that_the_first_rule_leaves() {
    let types = types();
    let rules = list_rules();
    let parser = Parser::new(&types, &rules);
    assert!(parser.is_ready());

    let toks = tokens(&[A, B, A, C, A]);
    let root = parser.parse(TokenSequence::new(&toks));
    let item = |children| node(Some(ITEM), vec![group(children)]);
    assert_eq!(
        root,
        node(
            Some(TOP),
            vec![
                group(vec![
                    item(vec![leaf(A, 0), leaf(B, 1)]),
                    item(vec![leaf(A, 2), group(vec![])]),
                ]),
                error(vec![leaf(C, 3), leaf(A, 4)]),
            ]
        )
    );
    assert_eq!(root.len(), 5);

    let none: Vec<Token> = vec![];
    assert_eq!(parser.parse(TokenSequence::new(&none)), node(Some(TOP), vec![group(vec![])]));
}

#[test]
fn parse_gives_an_empty_root_where_the_first_rule_fails() {
    let types = types();
    let rules = vec![SynRule { ty: Some(5), body: Expr::Token(2) }];
    let parser = Parser::new(&types, &rules);
    let toks = tokens(&[B, A]);
    assert_eq!(
        parser.parse(TokenSequence::new(&toks)),
        node(Some(TOP), vec![error(vec![leaf(B, 0), leaf(A, 1)])])
    );
    let none: Vec<Token> = vec![];
    assert_eq!(parser.parse(TokenSequence::new(&none)), node(Some(TOP), vec![]));
}

#[test]
fn parser_is_ready_with_a_sound_grammar_only() {
    let types = types();
    let ready = |rules: &[SynRule]| Parser::new(&types, rules).is_ready();
    assert!(ready(&list_rules()));
    // no rule at all
    assert!(!ready(&[]));
    // the first rule has no type
    assert!(!ready(&[SynRule { ty: None, body: Expr::Eof }]));
    // a type that does not exist
    assert!(!ready(&[SynRule { ty: Some(7), body: Expr::Eof }]));
    assert!(ready(&[SynRule { ty: Some(6), body: Expr::Eof }]));
    // a rule that does not exist
    assert!(!ready(&[SynRule { ty: Some(5), body: Expr::Rule(1) }]));
    // a token type that does not exist, deep inside
    let deep = Expr::Or(vec![
        Expr::Eof,
        Expr::And(vec![Expr::Opt(Box::new(Expr::Rep(Box::new(Expr::Not(vec![0, 7])))))], None),
    ]);
    assert!(!ready(&[SynRule { ty: Some(5), body: deep }]));
    // in a later rule
    assert!(!ready(&[
        SynRule { ty: Some(5), body: Expr::Eof },
        SynRule { ty: None, body: Expr::Layer(Box::new(Expr::Eof), Box::new(Expr::Token(9))) },
    ]));
}

#[test]
fn expr_ok_checks_every_index() {
    assert!(expr_ok(&Expr::Token(6), 0, 7));
    assert!(!expr_ok(&Expr::Token(7), 0, 7));
    assert!(expr_ok(&Expr::Rule(2), 3, 0));
    assert!(!expr_ok(&Expr::Rule(3), 3, 0));
    assert!(expr_ok(&Expr::Eof, 0, 0));
    assert!(expr_ok(&Expr::Ahead(vec![]), 0, 0));
    assert!(!expr_ok(&Expr::Ahead(vec![0]), 0, 0));
    assert!(!expr_ok(&Expr::SkipUntil(vec![1, 2, 3]), 0, 3));
    assert!(expr_ok(&Expr::SkipUntil(vec![1, 2]), 0, 3));
    assert!(!expr_ok(&Expr::Layer(Box::new(Expr::Rule(0)), Box::new(Expr::Eof)), 0, 1));
    assert!(!expr_ok(&Expr::Layer(Box::new(Expr::Eof), Box::new(Expr::Rule(0))), 0, 1));
    assert!(exprs_ok(&vec![], 0, 0));
    assert!(exprs_ok(&vec![Expr::Eof, Expr::Token(0)], 0, 1));
    assert!(!exprs_ok(&vec![Expr::Eof, Expr::Token(1)], 0, 1));
    assert!(indices_ok(&vec![], 0));
    assert!(indices_ok(&vec![0, 4], 5));
    assert!(!indices_ok(&vec![0, 5], 5));
}

#[test]
fn token_set_contains_looks_types_up_by_index() {
    let types = types();
    let parser = Parser::new(&types, &[]);
    let toks = tokens(&[B]);
    assert_eq!(parser.node_type(3), B);
    assert!(parser.token_set_contains(&[2, 3], toks[0]));
    assert!(parser.token_set_contains(&[3], toks[0]));
    assert!(!parser.token_set_contains(&[2, 4], toks[0]));
    assert!(!parser.token_set_contains(&[], toks[0]));
}

#[test]
fn token_sequence_walks_over_the_tokens() {
    let toks = tokens(&[A, B]);
    let start = TokenSequence::new(&toks);
    assert_eq!(start.pos, 0);
    assert_eq!(start.end, 2);
    assert_eq!(start.current(), Some(toks[0]));
    let second = start.bump();
    assert_eq!(second.current(), Some(toks[1]));
    assert!(!second.same_position(&start));
    assert!(second.same_position(&start.bump()));
    assert_eq!(second.bump().current(), None);

    let (first, rest) = start.take_leaf();
    assert_eq!(first, leaf(A, 0));
    assert!(rest.same_position(&second));

    // the tokens of a node that starts at the cursor
    let under = start.tokens_of_node(&first);
    assert_eq!((under.pos, under.end), (0, 1));
    assert_eq!(under.bump().current(), None);
    let wide = start.tokens_of_node(&group(vec![leaf(A, 0), leaf(B, 1)]));
    assert_eq!((wide.pos, wide.end), (0, 2));
    let nothing = second.tokens_of_node(&group(vec![]));
    assert_eq!((nothing.pos, nothing.end), (1, 1));
    assert_eq!(nothing.current(), None);
}

#[test]
fn nodes_count_their_tokens() {
    assert_eq!(Node::composite(None), group(vec![]));
    assert_eq!(Node::composite(Some(A)), node(Some(A), vec![]));
    assert_eq!(Node::error(), error(vec![]));
    assert!(Node::composite(None).is_anonymous());
    assert!(!Node::error().is_anonymous());
    assert!(!leaf(A, 0).is_anonymous());

    let mut top = Node::composite(Some(TOP));
    assert_eq!(top.len(), 0);
    top.push_child(leaf(A, 0));
    let mut inner = Node::composite(None);
    inner.push_child(leaf(B, 1));
    inner.push_child(leaf(C, 2));
    top.push_child(inner);
    top.push_child(Node::error());
    assert_eq!(top.len(), 3);
    assert_eq!(
        top,
        node(Some(TOP), vec![leaf(A, 0), group(vec![leaf(B, 1), leaf(C, 2)]), error(vec![])])
    );
}

#[test]
fn collect_error_wraps_the_tokens_ahead() {
    let toks = tokens(&[A, B, C]);
    let start = TokenSequence::new(&toks);
    assert_eq!(collect_error(start), error(vec![leaf(A, 0), leaf(B, 1), leaf(C, 2)]));
    assert_eq!(collect_error(start.bump().bump()), error(vec![leaf(C, 2)]));
    assert_eq!(collect_error(start.bump().bump().bump()), error(vec![]));
}
