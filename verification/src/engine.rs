//! The whole way from a text to its tree, with a grammar as the parser.
use crate::builder::{initial, lemma_initial, parse, TreeBuilder};
use crate::language::Language;
use crate::lex::{
    answers_alike, callable, fails, lemma_lexed_unique, lexed, measures, Rule, Token,
};
use crate::node::{dump_tree, trivia_types, File};
use crate::node_type::NodeType;
use crate::pre::{pre_tokens, root_wf, Pre};
use crate::state::{
    lemma_significant_prefix, offset_at, same_spine, significant, token_chain, Model,
};
use crate::text::{TextRange, TextUnit};
use crate::syn::Parser;
use crate::tree_builder::{TokenSequence, Tree};
use vstd::prelude::*;
use vstd::utf8::encode_utf8;

verus! {

/// The children of the composite `t`.
pub open spec fn children_of(t: Tree) -> Seq<Tree> {
    match t {
        Tree::Leaf { .. } => Seq::empty(),
        Tree::Composite { children, .. } => children,
    }
}

/// What the grammar of `parser` makes of the state `m` of a builder: the
/// tree that it parses from the tokens which the grammar sees, from the
/// cursor on, is written below the innermost open node. The node of the
/// first rule itself is not written: the innermost open node stands for it.
pub open spec fn grammar_step(parser: Parser, m: Model) -> Model {
    let seen = significant(m.tokens, m.skip, m.tokens.len());
    let before = significant(m.tokens, m.skip, m.cursor).len();
    m.emit_all(children_of(parser.parse_tree(seen, before, seen.len())))
}

/// Lets the grammar of `parser` parse the tokens that are left and writes
/// what it parsed into `builder`. The tree of the grammar holds every token
/// that the grammar sees, so the builder takes all the tokens that are left.
pub fn run_grammar(parser: &Parser, builder: &mut TreeBuilder)
    requires
        parser.ready(),
        old(builder).wf(),
    ensures
        final(builder)@ == grammar_step(*parser, old(builder)@),
        final(builder).wf(),
        final(builder).same_input(old(builder)),
        same_spine(old(builder)@, final(builder)@),
        final(builder)@.cursor == final(builder)@.tokens.len(),
{
    let (seen, before) = builder.significant();
    let tokens = TokenSequence { tokens: seen.as_slice(), pos: before, end: seen.len() };
    let node = parser.parse(tokens);
    proof {
        builder.lemma_wf();
        let trees = children_of(node.model());
        builder@.lemma_emit_all(trees);
        builder@.lemma_emit_all_takes(trees);
        builder@.emit_all(trees).lemma_all_seen();
    }
    match &node {
        crate::tree_builder::Node::Composite { children, .. } => {
            builder.emit_all(children);
        },
        crate::tree_builder::Node::Leaf { .. } => {},
    }
}

/// The tree that the grammar of `parser` gives to a text with the tokens
/// `tokens`, below a root of type `file_type`.
pub open spec fn grammar_tree(parser: Parser, tokens: Seq<Token>, file_type: NodeType) -> Pre {
    grammar_step(parser, initial(tokens, file_type).absorb()).sweep().root()
}

/// Parses `text` with the lexer rules `tokenizer` and the grammar of
/// `parser` into a file of language `lang` whose root has the type
/// `file_type`. The grammar leaves no token behind: the tree is the root as
/// the grammar filled it.
pub fn parse_text<F: Fn(&str) -> Option<usize>>(
    lang: Language,
    text: String,
    file_type: NodeType,
    tokenizer: &[Rule<F>],
    parser: &Parser,
) -> (r: Option<File>)
    requires
        lang.wf(),
        encode_utf8(text@).len() <= u32::MAX,
        callable(tokenizer@),
        measures(tokenizer@),
        parser.ready(),
    ensures
        match r {
            Some(file) => {
                &&& file.wf()
                &&& file.source() == text@
                &&& file.names() == lang@
                &&& file.covers_text()
                &&& file@.ty == file_type
                &&& lexed(
                    tokenizer@,
                    encode_utf8(text@),
                    pre_tokens(file@),
                    encode_utf8(text@).len() as int,
                )
                &&& file@ == grammar_tree(*parser, pre_tokens(file@), file_type)
                &&& file@ == grammar_step(
                    *parser,
                    initial(pre_tokens(file@), file_type).absorb(),
                ).root()
            },
            None => fails(tokenizer@, encode_utf8(text@)),
        },
{
    let run = |b: &mut TreeBuilder|
        requires
            b.wf(),
            b@.frames.len() == 1,
        ensures
            final(b)@ == grammar_step(*parser, old(b)@),
            final(b).wf(),
            final(b).same_input(old(b)),
            same_spine(old(b)@, final(b)@),
            final(b)@.cursor == final(b)@.tokens.len(),
        { run_grammar(parser, b) };
    parse(lang, text, file_type, tokenizer, &run)
}

/// The grammar leaves no token behind: whatever the grammar is, the tree
/// that it parses holds every token that it sees ahead, and the builder
/// that the tree is written into takes all the tokens that are left.
pub proof fn lemma_grammar_takes_all(parser: Parser, m: Model)
    requires
        m.wf(),
    ensures
        grammar_step(parser, m).wf(),
        grammar_step(parser, m).cursor == m.tokens.len(),
        same_spine(m, grammar_step(parser, m)),
{
    let seen = m.seen();
    let before = m.passed();
    lemma_significant_prefix(m.tokens, m.skip, m.cursor, m.tokens.len());
    parser.lemma_parse_tree_holds_all(seen, before, seen.len());
    let trees = children_of(parser.parse_tree(seen, before, seen.len()));
    m.lemma_emit_all(trees);
    m.lemma_emit_all_takes(trees);
    m.emit_all(trees).lemma_all_seen();
}

/// Every text gets a sound tree from every grammar: the tree for tokens
/// that lie one behind the other holds each of them once and in place,
/// each of its nodes is filled by its children without a gap, only the root
/// starts or ends with trivia, and the root has the type that was asked for
/// and reaches from the start of the text to its end.
pub proof fn lemma_grammar_tree_sound(parser: Parser, tokens: Seq<Token>, file_type: NodeType)
    requires
        token_chain(tokens),
    ensures
        root_wf(grammar_tree(parser, tokens, file_type), trivia_types()),
        pre_tokens(grammar_tree(parser, tokens, file_type)) == tokens,
        grammar_tree(parser, tokens, file_type).ty == file_type,
        grammar_tree(parser, tokens, file_type).range == (TextRange {
            start: TextUnit(0),
            end: offset_at(tokens, tokens.len()),
        }),
{
    let fresh = initial(tokens, file_type);
    lemma_initial(tokens, file_type);
    fresh.lemma_absorb();
    fresh.lemma_absorb_spine();
    let ready = fresh.absorb();
    lemma_grammar_takes_all(parser, ready);
    let filled = grammar_step(parser, ready);
    assert(filled.sweep() == filled);
    filled.lemma_root();
    assert(ready.frames[0].ty == file_type);
    assert(filled.frames[0].ty == file_type);
}

/// Parsing is a function of the text, the rules and the grammar: two trees
/// that `parse_text` may give to one text are the same tree, and are written
/// out alike. This holds where the functions of the lexer rules answer alike
/// on the same text.
pub proof fn lemma_parse_deterministic<F: Fn(&str) -> Option<usize>>(
    rules: Seq<Rule<F>>,
    parser: Parser,
    file_type: NodeType,
    names: Map<NodeType, Seq<char>>,
    text: Seq<char>,
    first: Pre,
    second: Pre,
)
    requires
        answers_alike(rules),
        lexed(rules, encode_utf8(text), pre_tokens(first), encode_utf8(text).len() as int),
        lexed(rules, encode_utf8(text), pre_tokens(second), encode_utf8(text).len() as int),
        first == grammar_tree(parser, pre_tokens(first), file_type),
        second == grammar_tree(parser, pre_tokens(second), file_type),
    ensures
        first == second,
        dump_tree(first, names, text, 0) == dump_tree(second, names, text, 0),
{
    lemma_lexed_unique(
        rules,
        encode_utf8(text),
        pre_tokens(first),
        pre_tokens(second),
        encode_utf8(text).len() as int,
    );
}

} // verus!
