//! What the grammar interpreter reads and what it produces: a cursor over the
//! significant tokens of a text, and trees whose leaves are those tokens.
use crate::lex::Token;
use crate::node_type::NodeType;
use vstd::prelude::*;

verus! {

/// The mathematical model of a parse result. A leaf stands for the
/// significant token with the given index. A composite without a type is an
/// anonymous grouping, which only holds its children together.
#[allow(inconsistent_fields)]
pub enum Tree {
    Leaf { ty: NodeType, token_idx: nat },
    Composite { ty: Option<NodeType>, children: Seq<Tree> },
}

/// The number of leaves of `t`.
pub open spec fn tree_len(t: Tree) -> nat
    decreases t,
{
    match t {
        Tree::Leaf { .. } => 1,
        Tree::Composite { children, .. } => forest_len(children),
    }
}

/// The number of leaves of all of `ts`.
pub open spec fn forest_len(ts: Seq<Tree>) -> nat
    decreases ts,
{
    if ts.len() == 0 {
        0
    } else {
        forest_len(ts.drop_last()) + tree_len(ts.last())
    }
}

/// Whether the leaves of `t`, read from left to right, are the tokens of
/// `toks` from index `from` on, one after the other and each with its type.
pub open spec fn tree_covers(t: Tree, toks: Seq<Token>, from: nat) -> bool
    decreases t,
{
    match t {
        Tree::Leaf { ty, token_idx } => {
            &&& token_idx == from
            &&& from < toks.len()
            &&& toks[from as int].ty == ty
        },
        Tree::Composite { children, .. } => forest_covers(children, toks, from),
    }
}

/// Whether the leaves of `ts`, read from left to right, are the tokens of
/// `toks` from index `from` on.
pub open spec fn forest_covers(ts: Seq<Tree>, toks: Seq<Token>, from: nat) -> bool
    decreases ts,
{
    if ts.len() == 0 {
        true
    } else {
        forest_covers(ts.drop_last(), toks, from) && tree_covers(
            ts.last(),
            toks,
            from + forest_len(ts.drop_last()),
        )
    }
}

/// The leaves for the tokens of `toks` with indices from `from` up to `to`.
pub open spec fn leaves_between(toks: Seq<Token>, from: nat, to: nat) -> Seq<Tree> {
    Seq::new(
        (to - from) as nat,
        |k: int| Tree::Leaf { ty: toks[from + k].ty, token_idx: (from + k) as nat },
    )
}

/// A composite with no children.
pub open spec fn empty_tree(ty: Option<NodeType>) -> Tree {
    Tree::Composite { ty, children: Seq::empty() }
}

/// The composite that wraps the tokens from `from` up to `to` as an error.
pub open spec fn error_tree(toks: Seq<Token>, from: nat, to: nat) -> Tree {
    Tree::Composite { ty: Some(NodeType::error()), children: leaves_between(toks, from, to) }
}

/// The composite `t` with `child` added as its last child.
pub open spec fn tree_with_child(t: Tree, child: Tree) -> Tree {
    match t {
        Tree::Leaf { .. } => t,
        Tree::Composite { ty, children } => Tree::Composite { ty, children: children.push(child) },
    }
}

/// Adding a tree at the end adds its leaves to the count.
pub proof fn lemma_forest_len_push(ts: Seq<Tree>, t: Tree)
    ensures
        forest_len(ts.push(t)) == forest_len(ts) + tree_len(t),
{
    assert(ts.push(t).drop_last() =~= ts);
}

/// A forest that covers the tokens up to some index still does so after a
/// tree that covers the next ones is added.
pub proof fn lemma_forest_covers_push(ts: Seq<Tree>, t: Tree, toks: Seq<Token>, from: nat)
    requires
        forest_covers(ts, toks, from),
        tree_covers(t, toks, from + forest_len(ts)),
    ensures
        forest_covers(ts.push(t), toks, from),
{
    assert(ts.push(t).drop_last() =~= ts);
}

/// The leaves for a stretch of tokens number as many as the stretch holds
/// and cover it.
pub proof fn lemma_leaves_between(toks: Seq<Token>, from: nat, to: nat)
    requires
        from <= to <= toks.len(),
    ensures
        forest_len(leaves_between(toks, from, to)) == to - from,
        forest_covers(leaves_between(toks, from, to), toks, from),
    decreases to - from,
{
    let all = leaves_between(toks, from, to);
    if from < to {
        let shorter = leaves_between(toks, from, (to - 1) as nat);
        lemma_leaves_between(toks, from, (to - 1) as nat);
        assert(all.drop_last() =~= shorter);
        assert(all.last() == (Tree::Leaf {
            ty: toks[to - 1].ty,
            token_idx: (to - 1) as nat,
        }));
        assert(tree_len(all.last()) == 1);
        assert(forest_len(all) == forest_len(shorter) + 1);
        assert(tree_covers(all.last(), toks, (to - 1) as nat));
    } else {
        assert(all.len() == 0);
    }
}

/// A tree built by the interpreter.
#[allow(inconsistent_fields)]
#[derive(Debug, PartialEq, Eq)]
pub enum Node {
    Leaf { ty: NodeType, token_idx: usize },
    Composite { ty: Option<NodeType>, children: Vec<Node>, len: usize },
}

/// The models of `nodes`, in their order.
pub open spec fn forest_view(nodes: Seq<Node>) -> Seq<Tree>
    decreases nodes,
{
    if nodes.len() == 0 {
        Seq::empty()
    } else {
        forest_view(nodes.drop_last()).push(nodes.last().model())
    }
}

/// Whether each of `nodes` records its own number of leaves.
pub open spec fn forest_wf(nodes: Seq<Node>) -> bool
    decreases nodes,
{
    if nodes.len() == 0 {
        true
    } else {
        forest_wf(nodes.drop_last()) && nodes.last().wf()
    }
}

impl Node {
    /// The tree that this node stands for.
    pub open spec fn model(&self) -> Tree
        decreases self,
    {
        match self {
            Node::Leaf { ty, token_idx } => Tree::Leaf { ty: *ty, token_idx: *token_idx as nat },
            Node::Composite { ty, children, .. } => Tree::Composite {
                ty: *ty,
                children: forest_view(children@),
            },
        }
    }

    /// A composite records the number of its leaves, and so does every
    /// composite below it.
    pub open spec fn wf(&self) -> bool
        decreases self,
    {
        match self {
            Node::Leaf { .. } => true,
            Node::Composite { children, len, .. } => {
                &&& forest_wf(children@)
                &&& *len == forest_len(forest_view(children@))
            },
        }
    }

    /// A composite of the given type without children.
    pub fn composite(ty: Option<NodeType>) -> (r: Node)
        ensures
            r.model() == empty_tree(ty),
            r.wf(),
    {
        let r = Node::Composite { ty, children: Vec::new(), len: 0 };
        assert(forest_view(Seq::<Node>::empty()) =~= Seq::<Tree>::empty());
        r
    }

    /// An error composite without children.
    pub fn error() -> (r: Node)
        ensures
            r.model() == empty_tree(Some(NodeType::error())),
            r.wf(),
    {
        Node::composite(Some(NodeType::error()))
    }

    /// The number of tokens under this node.
    pub fn len(&self) -> (r: usize)
        requires
            self.wf(),
        ensures
            r == tree_len(self.model()),
    {
        match self {
            Node::Leaf { .. } => 1,
            Node::Composite { len, .. } => *len,
        }
    }

    /// Whether this node is a composite without a type.
    pub fn is_anonymous(&self) -> (r: bool)
        ensures
            r == (self.model() matches Tree::Composite { ty: None, .. }),
    {
        match self {
            Node::Leaf { .. } => false,
            Node::Composite { ty, .. } => ty.is_none(),
        }
    }

    /// Adds `child` as the last child of this composite.
    pub fn push_child(&mut self, child: Node)
        requires
            old(self).wf(),
            child.wf(),
            *old(self) is Composite,
            tree_len(old(self).model()) + tree_len(child.model()) <= usize::MAX,
        ensures
            final(self).wf(),
            final(self).model() == tree_with_child(old(self).model(), child.model()),
    {
        let added: usize = child.len();
        match self {
            Node::Leaf { .. } => {},
            Node::Composite { children, len, .. } => {
                proof {
                    lemma_forest_len_push(forest_view(children@), child.model());
                    assert(children@.push(child).drop_last() =~= children@);
                }
                children.push(child);
                *len = *len + added;
            },
        }
    }
}

/// A cursor over the significant tokens of a text. It stands before the
/// token with index `pos` and sees the tokens up to index `end`.
#[derive(Clone, Copy, Debug)]
pub struct TokenSequence<'t> {
    pub tokens: &'t [Token],
    pub pos: usize,
    pub end: usize,
}

impl<'t> TokenSequence<'t> {
    /// The cursor is sound when it stands before its end and its end lies
    /// within the tokens.
    pub open spec fn wf(&self) -> bool {
        self.pos <= self.end <= self.tokens@.len()
    }

    /// A cursor before the first of `tokens` that sees all of them.
    pub fn new(tokens: &'t [Token]) -> (r: TokenSequence<'t>)
        ensures
            r.wf(),
            r.tokens@ == tokens@,
            r.pos == 0,
            r.end == tokens@.len(),
    {
        TokenSequence { tokens, pos: 0, end: tokens.len() }
    }

    /// The token that the cursor stands before, if it sees one.
    pub fn current(&self) -> (r: Option<Token>)
        requires
            self.wf(),
        ensures
            r == (if self.pos < self.end {
                Some(self.tokens@[self.pos as int])
            } else {
                None
            }),
    {
        if self.pos < self.end {
            Some(self.tokens[self.pos])
        } else {
            None
        }
    }

    /// The cursor moved past one token.
    pub fn bump(&self) -> (r: TokenSequence<'t>)
        requires
            self.wf(),
            self.pos < self.end,
        ensures
            r == (TokenSequence { tokens: self.tokens, pos: (self.pos + 1) as usize, end: self.end }),
            r.wf(),
    {
        TokenSequence { tokens: self.tokens, pos: self.pos + 1, end: self.end }
    }

    /// Takes the current token as a leaf and moves past it.
    pub fn take_leaf(&self) -> (r: (Node, TokenSequence<'t>))
        requires
            self.wf(),
            self.pos < self.end,
        ensures
            r.0.model() == (Tree::Leaf {
                ty: self.tokens@[self.pos as int].ty,
                token_idx: self.pos as nat,
            }),
            r.0.wf(),
            r.1 == (TokenSequence { tokens: self.tokens, pos: (self.pos + 1) as usize, end: self.end }),
            r.1.wf(),
    {
        (Node::Leaf { ty: self.tokens[self.pos].ty, token_idx: self.pos }, self.bump())
    }

    /// The tokens under `node`, where `node` starts at this cursor: the
    /// cursor stays and sees only the tokens of `node`.
    pub fn tokens_of_node(&self, node: &Node) -> (r: TokenSequence<'t>)
        requires
            self.wf(),
            node.wf(),
            self.pos + tree_len(node.model()) <= self.end,
        ensures
            r == (TokenSequence {
                tokens: self.tokens,
                pos: self.pos,
                end: (self.pos + tree_len(node.model())) as usize,
            }),
            r.wf(),
    {
        TokenSequence { tokens: self.tokens, pos: self.pos, end: self.pos + node.len() }
    }

    /// Whether both cursors stand at the same place.
    pub fn same_position(&self, other: &TokenSequence<'t>) -> (r: bool)
        ensures
            r == (self.pos == other.pos),
    {
        self.pos == other.pos
    }
}

} // verus!
