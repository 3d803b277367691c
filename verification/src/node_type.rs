//! The kinds of tokens and tree nodes.
use vstd::prelude::*;

verus! {

/// Identifies the kind of a token or of a tree node. Each language numbers
/// its own kinds; the first two numbers are the same in every language.
#[derive(Clone, Copy, Debug, PartialEq, Eq, Structural, PartialOrd, Ord, Hash)]
pub struct NodeType(pub u32);

impl NodeType {
    /// The type of errors.
    pub open spec fn spec_error() -> NodeType {
        NodeType(0)
    }

    /// The type of white space.
    pub open spec fn spec_whitespace() -> NodeType {
        NodeType(1)
    }

    /// Marks text that no lexer rule matched and tokens that no grammar rule took.
    #[verifier::when_used_as_spec(spec_error)]
    pub fn error() -> (r: NodeType)
        ensures
            r == NodeType(0),
    {
        NodeType(0)
    }

    /// Marks white space between tokens.
    #[verifier::when_used_as_spec(spec_whitespace)]
    pub fn whitespace() -> (r: NodeType)
        ensures
            r == NodeType(1),
    {
        NodeType(1)
    }
}

/// What a language tells about one of its node types.
#[derive(Clone, Debug)]
pub struct NodeTypeInfo {
    pub name: String,
}

} // verus!
