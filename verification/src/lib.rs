//! A parsing toolkit: a longest-match lexer, a grammar interpreter and a
//! lossless concrete syntax tree.
//!
//! A text is cut into tokens by [`lex`]. The grammar in [`syn`] is read by
//! an interpreter that parses the tokens which matter into the trees of
//! [`tree_builder`]. The [`builder`] writes such a tree, or what a parser
//! written by hand tells it, into a stack of open nodes and puts the white
//! space between them; its steps are defined and proved sound in [`state`]
//! over the trees of [`pre`]. The finished tree is a [`node::File`], whose
//! nodes know their parents and children. [`engine`] goes the whole way and
//! states what holds of every tree.
pub mod builder;
pub mod engine;
pub mod golden;
pub mod language;
pub mod lex;
pub mod node;
pub mod node_type;
pub mod pre;
pub mod range_order;
pub mod raw_string;
pub mod state;
pub mod syn;
pub mod text;
pub mod tree_builder;
