use fall::builder::{contains_type, parse, TreeBuilder};
use fall::language::Language;
use fall::lex::Rule;
use fall::node::{File, FileBuilder, NodeBuilder};
use fall::node_type::NodeType;
use fall::text::{TextRange, TextUnit};
use fall::tree_builder::Node;

type Custom = fn(&str) -> Option<usize>;

const FOO: NodeType = NodeType(10);
const BAR: NodeType = NodeType(11);
const WORD: NodeType = NodeType(12);
const FILE: NodeType = NodeType(20);
const ITEM: NodeType = NodeType(21);
const LIST: NodeType = NodeType(22);

fn language() -> Language {
    let mut lang = Language::new();
    for (ty, name) in
        [(FOO, "FOO"), (BAR, "BAR"), (WORD, "WORD"), (FILE, "FILE"), (ITEM, "ITEM"), (LIST, "LIST")]
    {
        assert!(lang.declare(ty, name));
    }
    lang
}

fn rule(ty: NodeType, re: &str) -> Rule<Custom> {
    match Rule::new(ty, re, None) {
        Ok(rule) => rule,
        Err(_) => panic!("the pattern {:?} does not compile", re),
    }
}

fn tokenizer() -> Vec<Rule<Custom>> {
    vec![
        rule(NodeType::whitespace(), r"\s+"),
        rule(FOO, "foo"),
        rule(BAR, "bar"),
        rule(WORD, r"\w+"),
    ]
}

fn build(text: &str, parser: &dyn Fn(&mut TreeBuilder)) -> File {
    parse(language(), text.to_string(), FILE, &tokenizer(), &parser).unwrap()
}

fn dump(text: &str, parser: &dyn Fn(&mut TreeBuilder)) -> String {
    let file = build(text, parser);
    assert!(file.has_types_named());
    assert_eq!(file.text(), text);
    file.dump()
}

#[test]
fn builder_that_does_nothing_leaves_an_error() {
    assert_eq!(dump("", &|_| {}), "FILE \"\"\n");
    assert_eq!(dump("  ", &|_| {}), "FILE\n  WHITESPACE \"  \"\n");
    assert_eq!(
        dump(" foo bar ", &|_| {}),
        "FILE\n  WHITESPACE \" \"\n  ERROR\n    FOO \"foo\"\n    WHITESPACE \" \"\n    BAR \"bar\"\n  WHITESPACE \" \"\n"
    );
}

#[test]
fn try_eat_takes_the_token_and_the_trivia_behind_it() {
    let d = dump("foo  bar", &|b| {
        assert!(!b.try_eat(BAR));
        assert!(b.try_eat(FOO));
        assert!(!b.try_eat(FOO));
        assert!(b.try_eat(BAR));
        assert!(!b.try_eat(BAR));
        assert!(!b.try_eat(NodeType::whitespace()));
    });
    assert_eq!(d, "FILE\n  FOO \"foo\"\n  WHITESPACE \"  \"\n  BAR \"bar\"\n");
}

#[test]
fn try_eat_never_takes_trivia_itself() {
    let d = dump(" foo", &|b| {
        // the blank at the start is in the root already
        assert!(!b.try_eat(NodeType::whitespace()));
        assert!(b.next_is(FOO));
    });
    assert_eq!(d, "FILE\n  WHITESPACE \" \"\n  ERROR\n    FOO \"foo\"\n");
}

#[test]
fn next_is_looks_without_taking() {
    let d = dump("foo bar", &|b| {
        assert!(b.next_is(FOO));
        assert!(!b.next_is(BAR));
        assert!(b.next_is(FOO));
        assert!(b.try_eat(FOO));
        assert!(b.next_is(BAR));
        assert!(b.try_eat(BAR));
        assert!(!b.next_is(BAR));
        assert!(!b.next_is(NodeType::error()));
    });
    assert_eq!(d, "FILE\n  FOO \"foo\"\n  WHITESPACE \" \"\n  BAR \"bar\"\n");
}

#[test]
fn finish_gives_the_trivia_at_the_end_to_the_parent() {
    let d = dump("foo  bar ", &|b| {
        b.start(ITEM);
        assert!(b.try_eat(FOO));
        b.finish(ITEM);
        b.start(ITEM);
        assert!(b.try_eat(BAR));
        b.finish(ITEM);
    });
    assert_eq!(
        d,
        "FILE\n  ITEM\n    FOO \"foo\"\n  WHITESPACE \"  \"\n  ITEM\n    BAR \"bar\"\n  WHITESPACE \" \"\n"
    );
}

#[test]
fn finish_keeps_the_trivia_between_children() {
    let d = dump("foo bar foo", &|b| {
        b.start(LIST);
        b.start(ITEM);
        assert!(b.try_eat(FOO));
        assert!(b.try_eat(BAR));
        b.finish(ITEM);
        assert!(b.try_eat(FOO));
        b.finish(LIST);
    });
    assert_eq!(
        d,
        "FILE\n  LIST\n    ITEM\n      FOO \"foo\"\n      WHITESPACE \" \"\n      BAR \"bar\"\n    WHITESPACE \" \"\n    FOO \"foo\"\n"
    );
}

#[test]
fn finish_of_an_empty_node_pins_it_to_the_next_token() {
    let file = build("foo bar", &|b| {
        assert!(b.try_eat(FOO));
        b.start(ITEM);
        b.finish(ITEM);
        assert!(b.try_eat(BAR));
        b.start(ITEM);
        b.finish(ITEM);
    });
    assert_eq!(
        file.dump(),
        "FILE\n  FOO \"foo\"\n  WHITESPACE \" \"\n  ITEM \"\"\n  BAR \"bar\"\n  ITEM \"\"\n"
    );
    let mut walk = file.root().children();
    let mut ranges = vec![];
    while let Some(child) = walk.next() {
        ranges.push((child.range().start().0, child.range().end().0));
    }
    // the empty nodes stand where `bar` starts and where the text ends
    assert_eq!(ranges, vec![(0, 3), (3, 4), (4, 4), (4, 7), (7, 7)]);
}

#[test]
fn rollback_gives_the_tokens_back() {
    let d = dump("foo bar", &|b| {
        b.start(ITEM);
        assert!(b.try_eat(FOO));
        assert!(b.try_eat(BAR));
        assert!(!b.next_is(FOO));
        b.rollback(ITEM);
        assert!(b.next_is(FOO));
        b.start(LIST);
        assert!(b.try_eat(FOO));
        b.finish(LIST);
    });
    assert_eq!(
        d,
        "FILE\n  LIST\n    FOO \"foo\"\n  WHITESPACE \" \"\n  ERROR\n    BAR \"bar\"\n"
    );
}

#[test]
fn skip_until_puts_the_skipped_tokens_into_an_error() {
    let d = dump("x y bar foo", &|b| {
        b.skip_until(&[BAR, FOO]);
        assert!(b.try_eat(BAR));
        // the next token is one to stop at: nothing happens
        b.skip_until(&[BAR, FOO]);
        assert!(b.try_eat(FOO));
        // nothing is left: nothing happens
        b.skip_until(&[BAR]);
    });
    assert_eq!(
        d,
        "FILE\n  ERROR\n    WORD \"x\"\n    WHITESPACE \" \"\n    WORD \"y\"\n  WHITESPACE \" \"\n  BAR \"bar\"\n  WHITESPACE \" \"\n  FOO \"foo\"\n"
    );
}

#[test]
fn skip_until_without_a_stop_takes_all() {
    let d = dump("x y ", &|b| {
        b.skip_until(&[]);
        assert!(!b.next_is(WORD));
    });
    assert_eq!(
        d,
        "FILE\n  ERROR\n    WORD \"x\"\n    WHITESPACE \" \"\n    WORD \"y\"\n  WHITESPACE \" \"\n"
    );
}

#[test]
fn parse_many_goes_on_while_the_function_says_so() {
    let d = dump("foo foo foo bar foo", &|b| {
        b.start(LIST);
        b.parse_many(&|b: &mut TreeBuilder| b.try_eat(FOO));
        b.finish(LIST);
        assert!(b.next_is(BAR));
    });
    assert_eq!(
        d,
        "FILE\n  LIST\n    FOO \"foo\"\n    WHITESPACE \" \"\n    FOO \"foo\"\n    WHITESPACE \" \"\n    FOO \"foo\"\n  WHITESPACE \" \"\n  ERROR\n    BAR \"bar\"\n    WHITESPACE \" \"\n    FOO \"foo\"\n"
    );
}

#[test]
fn depth_counts_the_open_nodes() {
    build("foo", &|b| {
        assert_eq!(b.depth(), 1);
        assert_eq!(b.pending_types(), vec![FILE]);
        b.start(LIST);
        b.start(ITEM);
        assert_eq!(b.depth(), 3);
        assert_eq!(b.pending_types(), vec![FILE, LIST, ITEM]);
        b.try_eat(FOO);
        b.finish(ITEM);
        assert_eq!(b.pending_types(), vec![FILE, LIST]);
        b.rollback(LIST);
        assert_eq!(b.depth(), 1);
    });
}

#[test]
fn error_changes_nothing() {
    let with = dump("foo bar", &|b| {
        assert!(b.try_eat(FOO));
        b.error();
    });
    let without = dump("foo bar", &|b| {
        assert!(b.try_eat(FOO));
    });
    assert_eq!(with, without);
}

#[test]
fn emit_writes_the_tree_of_the_interpreter() {
    let leaf = |ty, token_idx| Node::Leaf { ty, token_idx };
    let d = dump("foo bar  foo", &|b| {
        let mut list = Node::composite(Some(LIST));
        let mut item = Node::composite(Some(ITEM));
        item.push_child(leaf(FOO, 0));
        let mut pair = Node::composite(None);
        pair.push_child(item);
        pair.push_child(leaf(BAR, 1));
        list.push_child(pair);
        list.push_child(Node::error());
        b.emit(&list);
        // a leaf of a type that the next token does not have writes nothing
        b.emit(&leaf(BAR, 2));
        b.emit_all(&vec![leaf(FOO, 2), Node::composite(None)]);
    });
    assert_eq!(
        d,
        "FILE\n  LIST\n    ITEM\n      FOO \"foo\"\n    WHITESPACE \" \"\n    BAR \"bar\"\n    WHITESPACE \"  \"\n    ERROR \"\"\n  FOO \"foo\"\n"
    );
}

#[test]
fn significant_leaves_the_trivia_out() {
    build(" foo  bar x ", &|b| {
        let (seen, before) = b.significant();
        let tys: Vec<NodeType> = seen.iter().map(|t| t.ty).collect();
        assert_eq!(tys, vec![FOO, BAR, WORD]);
        assert_eq!(before, 0);
        assert!(b.try_eat(FOO));
        assert_eq!(b.significant().1, 1);
        assert!(b.try_eat(BAR));
        assert!(b.try_eat(WORD));
        let (seen, before) = b.significant();
        assert_eq!(seen.len(), 3);
        assert_eq!(before, 3);
    });
}

#[test]
fn no_file_where_the_lexer_is_stuck() {
    let rules = vec![rule(FOO, "x*")];
    assert!(parse(language(), "xxy".to_string(), FILE, &rules, &|_: &mut TreeBuilder| {}).is_none());
    assert!(parse(language(), "xx".to_string(), FILE, &rules, &|_: &mut TreeBuilder| {}).is_some());
}

#[test]
fn contains_type_searches_the_list() {
    assert!(contains_type(&[FOO, BAR], BAR));
    assert!(contains_type(&[FOO, BAR], FOO));
    assert!(!contains_type(&[FOO, BAR], WORD));
    assert!(!contains_type(&[], FOO));
}

#[test]
fn language_names_its_types() {
    let mut lang = Language::new();
    assert!(lang.knows(NodeType::error()));
    assert!(lang.knows(NodeType::whitespace()));
    assert_eq!(lang.node_type_info(NodeType::error()).name, "ERROR");
    assert_eq!(lang.node_type_info(NodeType::whitespace()).name, "WHITESPACE");
    assert!(!lang.knows(FOO));
    assert!(lang.declare(FOO, "FOO"));
    assert!(lang.knows(FOO));
    assert_eq!(lang.node_type_info(FOO).name, "FOO");
    // the first name stays
    assert!(!lang.declare(FOO, "OTHER"));
    assert!(!lang.declare(NodeType::error(), "OOPS"));
    assert_eq!(lang.node_type_info(FOO).name, "FOO");
    assert_eq!(lang.node_type_info(NodeType::error()).name, "ERROR");
    assert_eq!(NodeType::error(), NodeType(0));
    assert_eq!(NodeType::whitespace(), NodeType(1));
}

#[test]
fn file_knows_whether_its_types_have_names() {
    let named = build("foo", &|b| {
        b.start(ITEM);
        b.try_eat(FOO);
        b.finish(ITEM);
    });
    assert!(named.has_types_named());
    assert!(named.language().knows(ITEM));
    let unnamed = build("foo", &|b| {
        b.start(NodeType(99));
        b.try_eat(FOO);
        b.finish(NodeType(99));
    });
    assert!(!unnamed.has_types_named());
}

#[test]
fn file_builder_links_parents_and_children() {
    let range = |a, b| TextRange::from_to(TextUnit(a), TextUnit(b));
    let mut builder = FileBuilder::new(language(), "foo bar".to_string());
    let root: NodeBuilder = builder.node(None, FILE, range(0, 7));
    let item = builder.node(Some(root), ITEM, range(0, 3));
    builder.node(Some(item), FOO, range(0, 3));
    builder.node(Some(root), NodeType::whitespace(), range(3, 4));
    builder.node(Some(root), BAR, range(4, 7));
    let file = builder.build();

    assert_eq!(
        file.dump(),
        "FILE\n  ITEM\n    FOO \"foo\"\n  WHITESPACE \" \"\n  BAR \"bar\"\n"
    );
    let root = file.root();
    assert_eq!(root.ty(), FILE);
    assert!(root.parent().is_none());
    assert!(!root.is_leaf());
    let mut walk = root.children();
    let item = walk.next().unwrap();
    assert_eq!(item.ty(), ITEM);
    assert_eq!(item.parent().map(|p| p.ty()), Some(FILE));
    let foo = item.children().next().unwrap();
    assert_eq!(foo.ty(), FOO);
    assert!(foo.is_leaf());
    assert!(foo.children().next().is_none());
    assert_eq!(foo.parent().map(|p| p.ty()), Some(ITEM));
    assert_eq!(foo.parent().and_then(|p| p.parent()).map(|p| p.ty()), Some(FILE));
    assert_eq!(walk.next().map(|n| n.ty()), Some(NodeType::whitespace()));
    let bar = walk.next().unwrap();
    assert_eq!(bar.range(), range(4, 7));
    assert!(walk.next().is_none());
    assert!(walk.next().is_none());
}
