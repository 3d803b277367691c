use fall::engine::parse_text;
use fall::golden::match_ast;
use fall::language::Language;
use fall::lex::Rule;
use fall::node::{File, Node};
use fall::node_type::NodeType;
use fall::raw_string::parse_raw_string;
use fall::syn::{Expr, Parser, SynRule};
use fall::text::{TextRange, TextUnit};

type Custom = fn(&str) -> Option<usize>;

const NUMBER: NodeType = NodeType(100);
const PLUS: NodeType = NodeType(101);
const MINUS: NodeType = NodeType(102);
const STAR: NodeType = NodeType(103);
const SLASH: NodeType = NodeType(104);
const LPAREN: NodeType = NodeType(105);
const RPAREN: NodeType = NodeType(106);
const FILE: NodeType = NodeType(107);
const PRODUCT_EXPR: NodeType = NodeType(108);
const SUM_EXPR: NodeType = NodeType(109);
const CONSTANT_EXPR: NodeType = NodeType(110);
const PAREN_EXPR: NodeType = NodeType(111);

fn lex_rule(ty: NodeType, re: &str, f: Option<Custom>) -> Rule<Custom> {
    match Rule::new(ty, re, f) {
        Ok(rule) => rule,
        Err(_) => panic!("the pattern {:?} does not compile", re),
    }
}

fn arith_types() -> Vec<NodeType> {
    vec![
        NodeType::error(),
        NodeType::whitespace(),
        NUMBER,
        PLUS,
        MINUS,
        STAR,
        SLASH,
        LPAREN,
        RPAREN,
        FILE,
        PRODUCT_EXPR,
        SUM_EXPR,
        CONSTANT_EXPR,
        PAREN_EXPR,
    ]
}

fn arith_language() -> Language {
    let mut lang = Language::new();
    for (ty, name) in [
        (NUMBER, "NUMBER"),
        (PLUS, "PLUS"),
        (MINUS, "MINUS"),
        (STAR, "STAR"),
        (SLASH, "SLASH"),
        (LPAREN, "LPAREN"),
        (RPAREN, "RPAREN"),
        (FILE, "FILE"),
        (PRODUCT_EXPR, "PRODUCT_EXPR"),
        (SUM_EXPR, "SUM_EXPR"),
        (CONSTANT_EXPR, "CONSTANT_EXPR"),
        (PAREN_EXPR, "PAREN_EXPR"),
    ] {
        assert!(lang.declare(ty, name));
    }
    lang
}

fn arith_tokenizer() -> Vec<Rule<Custom>> {
    vec![
        lex_rule(NodeType::whitespace(), "\\s+", None),
        lex_rule(NUMBER, "\\d+", None),
        lex_rule(PLUS, "\\+", None),
        lex_rule(MINUS, "\\-", None),
        lex_rule(STAR, "\\*", None),
        lex_rule(SLASH, "/", None),
        lex_rule(LPAREN, "\\(", None),
        lex_rule(RPAREN, "\\)", None),
    ]
}

fn seq(parts: Vec<Expr>) -> Expr {
    Expr::And(parts, None)
}

fn arith_grammar() -> Vec<SynRule> {
    vec![
        // 0: the file
        SynRule { ty: Some(9), body: Expr::Rule(1) },
        // 1: an expression
        SynRule { ty: None, body: Expr::Or(vec![Expr::Rule(2), Expr::Rule(3)]) },
        // 2: a sum
        SynRule {
            ty: Some(11),
            body: seq(vec![
                Expr::Rule(3),
                Expr::Or(vec![Expr::Token(3), Expr::Token(4)]),
                Expr::Rule(1),
            ]),
        },
        // 3: a product or an atom
        SynRule { ty: None, body: Expr::Or(vec![Expr::Rule(4), Expr::Rule(5)]) },
        // 4: a product
        SynRule {
            ty: Some(10),
            body: seq(vec![
                Expr::Rule(5),
                Expr::Or(vec![Expr::Token(5), Expr::Token(6)]),
                Expr::Rule(3),
            ]),
        },
        // 5: an atom
        SynRule { ty: None, body: Expr::Or(vec![Expr::Rule(6), Expr::Rule(7)]) },
        // 6: a constant
        SynRule { ty: Some(12), body: Expr::Token(2) },
        // 7: an expression in parentheses
        SynRule {
            ty: Some(13),
            body: seq(vec![Expr::Token(7), Expr::Rule(1), Expr::Token(8)]),
        },
    ]
}

fn parse_arith(text: &str) -> File {
    let types = arith_types();
    let grammar = arith_grammar();
    let parser = Parser::new(&types, &grammar);
    assert!(parser.is_ready());
    parse_text(arith_language(), text.to_string(), FILE, &arith_tokenizer(), &parser).unwrap()
}


const FOO: NodeType = NodeType(203);
const BAR: NodeType = NodeType(204);
const ATOM: NodeType = NodeType(205);
const RAW_STRING: NodeType = NodeType(206);
const PAIR: NodeType = NodeType(208);

fn weird_types() -> Vec<NodeType> {
    vec![NodeType::error(), NodeType::whitespace(), FOO, BAR, ATOM, RAW_STRING, FILE, PAIR]
}

fn weird_language() -> Language {
    let mut lang = Language::new();
    for (ty, name) in [
        (FOO, "FOO"),
        (BAR, "BAR"),
        (ATOM, "ATOM"),
        (RAW_STRING, "RAW_STRING"),
        (FILE, "FILE"),
        (PAIR, "PAIR"),
    ] {
        assert!(lang.declare(ty, name));
    }
    lang
}

fn weird_tokenizer() -> Vec<Rule<Custom>> {
    vec![
        lex_rule(NodeType::whitespace(), "\\s+", None),
        lex_rule(RAW_STRING, "r#+\"", Some(parse_raw_string)),
        lex_rule(FOO, "foo", None),
        lex_rule(BAR, "bar", None),
        lex_rule(ATOM, "\\w+", None),
    ]
}

fn parse_weird(grammar: Vec<SynRule>, text: &str) -> File {
    let types = weird_types();
    let parser = Parser::new(&types, &grammar);
    assert!(parser.is_ready());
    parse_text(weird_language(), text.to_string(), FILE, &weird_tokenizer(), &parser).unwrap()
}

fn range(start: u32, end: u32) -> TextRange {
    TextRange::from_to(TextUnit(start), TextUnit(end))
}

fn children<'f>(node: &Node<'f>) -> Vec<Node<'f>> {
    let mut walk = node.children();
    let mut all = vec![];
    while let Some(child) = walk.next() {
        all.push(child);
    }
    all
}

fn leaves<'f>(node: &Node<'f>, into: &mut Vec<Node<'f>>) {
    if node.is_leaf() {
        into.push(*node);
    } else {
        for child in children(node) {
            leaves(&child, into);
        }
    }
}

fn composites<'f>(node: &Node<'f>, into: &mut Vec<Node<'f>>) {
    if !node.is_leaf() {
        into.push(*node);
        for child in children(node) {
            composites(&child, into);
        }
    }
}

fn is_trivia(node: &Node) -> bool {
    node.is_leaf() && node.ty() == NodeType::whitespace() && !node.range().is_empty()
}

/// What must hold of the tree of every text.
fn check_tree(file: &File, text: &str) {
    assert_eq!(file.text(), text);
    let root = file.root();
    assert!(root.parent().is_none());
    assert_eq!(root.range(), range(0, text.len() as u32));

    // the leaves tile the text
    let mut all = vec![];
    leaves(&root, &mut all);
    let mut at = 0u32;
    let mut spelled = String::new();
    for leaf in &all {
        assert_eq!(leaf.range().start(), TextUnit(at));
        assert!(leaf.range().start() <= leaf.range().end());
        spelled.push_str(leaf.text());
        at = leaf.range().end().0;
    }
    assert_eq!(at as usize, text.len());
    assert_eq!(spelled, text);

    let mut inner = vec![];
    composites(&root, &mut inner);
    for node in &inner {
        let below = children(node);
        // the children fill the node, in the order of the text
        assert_eq!(below[0].range().start(), node.range().start());
        assert_eq!(below[below.len() - 1].range().end(), node.range().end());
        for pair in below.windows(2) {
            assert_eq!(pair[0].range().end(), pair[1].range().start());
            assert!(pair[0].range().start() <= pair[1].range().start());
        }
        for child in &below {
            assert!(child.range().is_subrange_of(node.range()));
            assert_eq!(child.parent().map(|p| p.range()), Some(node.range()));
            assert_eq!(child.parent().map(|p| p.ty()), Some(node.ty()));
        }
        // only the root starts or ends with trivia
        if node.parent().is_some() {
            assert!(!is_trivia(&below[0]));
            assert!(!is_trivia(&below[below.len() - 1]));
        }
    }
}

fn assert_dump(file: &File, expected: &str) {
    assert!(file.has_types_named());
    assert_eq!(match_ast(&file.dump(), expected), Ok(()));
}

#[test]
fn arithmetic_keeps_precedence() {
    let file = parse_arith("1+2*3");
    check_tree(&file, "1+2*3");
    assert_eq!(
        file.dump(),
        "FILE\n  SUM_EXPR\n    CONSTANT_EXPR\n      NUMBER \"1\"\n    PLUS \"+\"\n    PRODUCT_EXPR\n      CONSTANT_EXPR\n        NUMBER \"2\"\n      STAR \"*\"\n      CONSTANT_EXPR\n        NUMBER \"3\"\n"
    );
}

#[test]
fn arithmetic_with_blanks_and_parentheses() {
    let text = " (1 + 2) * 3 ";
    let file = parse_arith(text);
    check_tree(&file, text);
    assert_dump(
        &file,
        r#"
FILE
  WHITESPACE " "
  PRODUCT_EXPR
    PAREN_EXPR
      LPAREN "("
      SUM_EXPR
        CONSTANT_EXPR
          NUMBER "1"
        WHITESPACE " "
        PLUS "+"
        WHITESPACE " "
        CONSTANT_EXPR
          NUMBER "2"
      RPAREN ")"
    WHITESPACE " "
    STAR "*"
    WHITESPACE " "
    CONSTANT_EXPR
      NUMBER "3"
  WHITESPACE " "
"#,
    );
}

#[test]
fn empty_text_gives_an_empty_root() {
    let file = parse_arith("");
    check_tree(&file, "");
    assert_eq!(file.dump(), "FILE \"\"\n");
    assert!(file.root().is_leaf());
    assert_eq!(file.root().ty(), FILE);
}

#[test]
fn text_of_blanks_gives_a_root_of_trivia() {
    let file = parse_arith(" \n ");
    check_tree(&file, " \n ");
    assert_eq!(file.dump(), "FILE\n  WHITESPACE \" \\n \"\n");
}

#[test]
fn recovered_structural_error() {
    // a pair is `foo bar`; past `foo` it is committed
    let grammar = vec![
        SynRule { ty: Some(6), body: Expr::Rep(Box::new(Expr::Rule(1))) },
        SynRule { ty: Some(7), body: Expr::And(vec![Expr::Token(2), Expr::Token(3)], Some(1)) },
    ];
    let text = "foo foo bar";
    let file = parse_weird(grammar, text);
    check_tree(&file, text);
    assert_dump(
        &file,
        r#"
FILE
  PAIR
    FOO "foo"
    WHITESPACE " "
    ERROR ""
  PAIR
    FOO "foo"
    WHITESPACE " "
    BAR "bar"
"#,
    );
}

#[test]
fn uncommitted_sequence_backtracks() {
    // the same pairs without a commit: the first `foo` alone is no pair
    let grammar = vec![
        SynRule { ty: Some(6), body: Expr::Rep(Box::new(Expr::Rule(1))) },
        SynRule { ty: Some(7), body: Expr::And(vec![Expr::Token(2), Expr::Token(3)], None) },
    ];
    let text = "foo foo bar";
    let file = parse_weird(grammar, text);
    check_tree(&file, text);
    assert_dump(
        &file,
        r#"
FILE
  ERROR
    FOO "foo"
    WHITESPACE " "
    FOO "foo"
    WHITESPACE " "
    BAR "bar"
"#,
    );
}

#[test]
fn trailing_error() {
    let grammar = vec![SynRule { ty: Some(6), body: Expr::Token(2) }];
    let text = "foo bar";
    let file = parse_weird(grammar, text);
    check_tree(&file, text);
    assert_dump(
        &file,
        r#"
FILE
  FOO "foo"
  WHITESPACE " "
  ERROR
    BAR "bar"
"#,
    );
}

#[test]
fn failed_first_rule_gives_a_root_with_an_error() {
    let grammar = vec![SynRule { ty: Some(6), body: Expr::Token(2) }];
    let text = "bar foo ";
    let file = parse_weird(grammar, text);
    check_tree(&file, text);
    assert_dump(
        &file,
        r#"
FILE
  ERROR
    BAR "bar"
    WHITESPACE " "
    FOO "foo"
  WHITESPACE " "
"#,
    );
}

#[test]
fn custom_tokenizer_raw_string() {
    let grammar = vec![SynRule {
        ty: Some(6),
        body: Expr::Rep(Box::new(Expr::Or(vec![Expr::Token(5), Expr::Token(4)]))),
    }];
    let text = "r##\"he said \"hi\"\"## x";
    let file = parse_weird(grammar, text);
    check_tree(&file, text);
    assert_dump(
        &file,
        r###"
FILE
  RAW_STRING "r##\"he said \"hi\"\"##"
  WHITESPACE " "
  ATOM "x"
"###,
    );
}

#[test]
fn lexical_error() {
    let file = parse_arith("@");
    check_tree(&file, "@");
    assert_dump(
        &file,
        r#"
FILE
  ERROR
    ERROR "@"
"#,
    );
    let mut all = vec![];
    leaves(&file.root(), &mut all);
    assert_eq!(all.len(), 1);
    assert_eq!(all[0].ty(), NodeType::error());
    assert_eq!(all[0].range(), range(0, 1));
}

#[test]
fn lexical_error_inside_an_expression() {
    let text = "1 + € 2";
    let file = parse_arith(text);
    check_tree(&file, text);
    assert_dump(
        &file,
        r#"
FILE
  CONSTANT_EXPR
    NUMBER "1"
  WHITESPACE " "
  ERROR
    PLUS "+"
    WHITESPACE " "
    ERROR "€"
    WHITESPACE " "
    NUMBER "2"
"#,
    );
}

fn layered_grammar(inner: Expr) -> Vec<SynRule> {
    vec![
        SynRule { ty: Some(9), body: Expr::Rep(Box::new(Expr::Or(vec![Expr::Rule(1), Expr::Rule(3)]))) },
        // a pair of parentheses with anything between them, read again by `inner`
        SynRule {
            ty: Some(13),
            body: Expr::Layer(
                Box::new(seq(vec![
                    Expr::Token(7),
                    Expr::Rep(Box::new(Expr::Not(vec![8]))),
                    Expr::Token(8),
                ])),
                Box::new(inner),
            ),
        },
        // a sum, committed past the operator
        SynRule {
            ty: Some(11),
            body: Expr::And(vec![Expr::Rule(3), Expr::Token(3), Expr::Rule(3)], Some(2)),
        },
        SynRule { ty: Some(12), body: Expr::Token(2) },
    ]
}

fn parse_layered(inner: Expr, text: &str) -> File {
    let types = arith_types();
    let grammar = layered_grammar(inner);
    let parser = Parser::new(&types, &grammar);
    assert!(parser.is_ready());
    parse_text(arith_language(), text.to_string(), FILE, &arith_tokenizer(), &parser).unwrap()
}

#[test]
fn layer_recovery() {
    let inner = seq(vec![Expr::Token(7), Expr::Rule(2), Expr::Token(8)]);
    let text = "(1 + ) 2";
    let file = parse_layered(inner, text);
    check_tree(&file, text);
    assert_dump(
        &file,
        r#"
FILE
  PAREN_EXPR
    LPAREN "("
    SUM_EXPR
      CONSTANT_EXPR
        NUMBER "1"
      WHITESPACE " "
      PLUS "+"
      WHITESPACE " "
      ERROR ""
    RPAREN ")"
  WHITESPACE " "
  CONSTANT_EXPR
    NUMBER "2"
"#,
    );
}

#[test]
fn layer_wraps_what_the_inner_parse_leaves() {
    // the inner parse takes the opening parenthesis and the number only
    let inner = seq(vec![Expr::Token(7), Expr::Rule(3)]);
    let text = "(1 + ) 2";
    let file = parse_layered(inner, text);
    check_tree(&file, text);
    assert_dump(
        &file,
        r#"
FILE
  PAREN_EXPR
    LPAREN "("
    CONSTANT_EXPR
      NUMBER "1"
    WHITESPACE " "
    ERROR
      PLUS "+"
      WHITESPACE " "
      RPAREN ")"
  WHITESPACE " "
  CONSTANT_EXPR
    NUMBER "2"
"#,
    );
}

#[test]
fn layer_keeps_the_tokens_of_a_failed_inner_parse() {
    let inner = Expr::Token(2);
    let text = "(1 + ) 2";
    let file = parse_layered(inner, text);
    check_tree(&file, text);
    assert_dump(
        &file,
        r#"
FILE
  PAREN_EXPR
    ERROR
      LPAREN "("
      NUMBER "1"
      WHITESPACE " "
      PLUS "+"
      WHITESPACE " "
      RPAREN ")"
  WHITESPACE " "
  CONSTANT_EXPR
    NUMBER "2"
"#,
    );
}

#[test]
fn skip_until_wraps_the_skipped_tokens() {
    // skip to the next `bar`, then take it
    let grammar = vec![SynRule {
        ty: Some(6),
        body: Expr::Rep(Box::new(seq(vec![Expr::SkipUntil(vec![3]), Expr::Token(3)]))),
    }];
    let text = "foo x bar bar y";
    let file = parse_weird(grammar, text);
    check_tree(&file, text);
    assert_dump(
        &file,
        r#"
FILE
  ERROR
    FOO "foo"
    WHITESPACE " "
    ATOM "x"
  WHITESPACE " "
  BAR "bar"
  WHITESPACE " "
  BAR "bar"
  WHITESPACE " "
  ERROR
    ATOM "y"
"#,
    );
}

#[test]
fn repetition_of_an_option_ends() {
    // the body parses without taking a token where no `foo` stands
    let grammar = vec![SynRule {
        ty: Some(6),
        body: Expr::Rep(Box::new(Expr::Opt(Box::new(Expr::Token(2))))),
    }];
    let file = parse_weird(grammar, "foo foo bar");
    check_tree(&file, "foo foo bar");
    assert_dump(
        &file,
        r#"
FILE
  FOO "foo"
  WHITESPACE " "
  FOO "foo"
  WHITESPACE " "
  ERROR
    BAR "bar"
"#,
    );
    let grammar = vec![SynRule {
        ty: Some(6),
        body: Expr::Rep(Box::new(Expr::Opt(Box::new(Expr::Token(2))))),
    }];
    let empty = parse_weird(grammar, "");
    assert_eq!(empty.dump(), "FILE \"\"\n");
}

#[test]
fn parsing_twice_gives_the_same_dump() {
    let text = "(1 + 2 * (3 - @) / 4";
    let first = parse_arith(text);
    let second = parse_arith(text);
    check_tree(&first, text);
    assert_eq!(first.dump(), second.dump());
}

#[test]
fn dump_escapes_the_text_of_leaves() {
    let grammar = vec![SynRule { ty: Some(6), body: Expr::Token(5) }];
    let text = "r#\"a\\b\n\t'\"#";
    let file = parse_weird(grammar, text);
    check_tree(&file, text);
    assert_eq!(file.dump(), "FILE\n  RAW_STRING \"r#\\\"a\\\\b\\n\\t'\\\"#\"\n");
}

#[test]
fn node_containing_range_goes_down_to_the_lowest_node() {
    let text = "1 + 2*3";
    let file = parse_arith(text);
    check_tree(&file, text);
    // `2`
    let two = file.node_containing_range(range(4, 5));
    assert_eq!(two.ty(), NUMBER);
    assert_eq!(two.range(), range(4, 5));
    assert_eq!(two.text(), "2");
    assert_eq!(two.parent().map(|p| p.ty()), Some(CONSTANT_EXPR));
    // `2*`
    let product = file.node_containing_range(range(4, 6));
    assert_eq!(product.ty(), PRODUCT_EXPR);
    assert_eq!(product.text(), "2*3");
    // `+ 2`
    let sum = file.node_containing_range(range(2, 5));
    assert_eq!(sum.ty(), SUM_EXPR);
    assert_eq!(sum.range(), range(0, 7));
    // the whole text: the root is filled by the sum, the sum by several nodes
    let all = file.node_containing_range(range(0, 7));
    assert_eq!(all.ty(), SUM_EXPR);
    // between `1` and the blank behind it both hold the place: the first wins
    let tie = file.node_containing_range(range(1, 1));
    assert_eq!(tie.ty(), NUMBER);
    assert_eq!(tie.range(), range(0, 1));
    // a range outside of the text stays at the root
    let outside = file.node_containing_range(range(3, 9));
    assert_eq!(outside.ty(), FILE);
    assert!(outside.parent().is_none());
}
