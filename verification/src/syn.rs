//! The grammar and its interpreter.
use crate::lex::Token;
use crate::node_type::NodeType;
use crate::tree_builder::{
    empty_tree, error_tree, forest_covers, forest_len, leaves_between, lemma_forest_covers_push,
    lemma_forest_len_push, lemma_leaves_between, tree_covers, tree_len, tree_with_child, Node,
    TokenSequence, Tree,
};
use vstd::prelude::*;

verus! {

/// A rule of the grammar. A rule with a type wraps what its body parses in a
/// node of that type; `ty` is an index into the parser's node types.
#[derive(Debug, PartialEq, Eq)]
pub struct SynRule {
    pub ty: Option<usize>,
    pub body: Expr,
}

/// A parsing expression. Tokens, rules and node types are named by index.
#[derive(Debug, PartialEq, Eq)]
pub enum Expr {
    /// The first alternative that parses.
    Or(Vec<Expr>),
    /// The parts one after the other. From the index given, a part that
    /// fails leaves an error behind instead of failing the whole.
    And(Vec<Expr>, Option<usize>),
    /// The rule with this index.
    Rule(usize),
    /// One token of this type.
    Token(usize),
    /// The body as often as it parses.
    Rep(Box<Expr>),
    /// The body, or nothing.
    Opt(Box<Expr>),
    /// One token of any type but these.
    Not(Vec<usize>),
    /// Nothing, provided the next token has one of these types.
    Ahead(Vec<usize>),
    /// Nothing, provided no token is left.
    Eof,
    /// The second expression, on exactly the tokens that the first takes.
    Layer(Box<Expr>, Box<Expr>),
    /// Every token up to the next of one of these types, as an error.
    SkipUntil(Vec<usize>),
}

/// Whether every index in `e` names a rule or a node type that exists.
pub open spec fn expr_wf(e: Expr, n_rules: nat, n_types: nat) -> bool
    decreases e,
{
    match e {
        Expr::Or(parts) => exprs_wf(parts@, n_rules, n_types),
        Expr::And(parts, _) => exprs_wf(parts@, n_rules, n_types),
        Expr::Rule(id) => id < n_rules,
        Expr::Token(ty) => ty < n_types,
        Expr::Rep(body) => expr_wf(*body, n_rules, n_types),
        Expr::Opt(body) => expr_wf(*body, n_rules, n_types),
        Expr::Not(tys) => indices_below(tys@, n_types),
        Expr::Ahead(tys) => indices_below(tys@, n_types),
        Expr::Eof => true,
        Expr::Layer(outer, inner) => expr_wf(*outer, n_rules, n_types) && expr_wf(
            *inner,
            n_rules,
            n_types,
        ),
        Expr::SkipUntil(tys) => indices_below(tys@, n_types),
    }
}

/// Whether every expression of `parts` is well formed.
pub open spec fn exprs_wf(parts: Seq<Expr>, n_rules: nat, n_types: nat) -> bool
    decreases parts,
{
    forall|i: int| 0 <= i < parts.len() ==> expr_wf(#[trigger] parts[i], n_rules, n_types)
}

/// Whether every index of `tys` is below `n`.
pub open spec fn indices_below(tys: Seq<usize>, n: nat) -> bool {
    forall|i: int| 0 <= i < tys.len() ==> #[trigger] tys[i] < n
}

/// The anonymous composite with the given children.
pub open spec fn group(children: Seq<Tree>) -> Tree {
    Tree::Composite { ty: None, children }
}

/// Interprets a grammar over a sequence of tokens.
#[derive(Clone, Copy)]
pub struct Parser<'r> {
    pub node_types: &'r [NodeType],
    pub rules: &'r [SynRule],
}

impl<'r> Parser<'r> {
    /// A grammar is well formed when every index in it names a rule or a
    /// node type that exists.
    pub open spec fn wf(&self) -> bool {
        forall|i: int|
            0 <= i < self.rules@.len() ==> {
                &&& (#[trigger] self.rules@[i]).ty matches Some(ty) ==> ty < self.node_types@.len()
                &&& expr_wf(self.rules@[i].body, self.rules@.len(), self.node_types@.len())
            }
    }

    /// Whether `e` fits this grammar.
    pub open spec fn admits(&self, e: Expr) -> bool {
        expr_wf(e, self.rules@.len(), self.node_types@.len())
    }

    /// The node type that rule `id` gives to its node, if it gives one.
    pub open spec fn rule_type(&self, id: int) -> Option<NodeType> {
        match self.rules@[id].ty {
            Some(ty) => Some(self.node_types@[ty as int]),
            None => None,
        }
    }

    /// Whether `ty` is among the node types with the indices `tys`.
    pub open spec fn type_in(&self, tys: Seq<usize>, ty: NodeType) -> bool {
        exists|i: int| 0 <= i < tys.len() && self.node_types@[#[trigger] tys[i] as int] == ty
    }

    /// Where `SkipUntil` stops: at the first token from `pos` on whose type
    /// is among `tys`, or at `end`.
    pub open spec fn skip_end(&self, tys: Seq<usize>, toks: Seq<Token>, pos: nat, end: nat) -> nat
        decreases end - pos,
    {
        if pos < end && !self.type_in(tys, toks[pos as int].ty) {
            self.skip_end(tys, toks, pos + 1, end)
        } else {
            pos
        }
    }

    /// What `e` parses from the tokens of `toks` between `pos` and `end`:
    /// nothing if it fails, else the tree and the index of the first token
    /// that it left. `depth` bounds how deep rules may call rules.
    pub open spec fn eval(&self, e: Expr, toks: Seq<Token>, pos: nat, end: nat, depth: nat) -> Option<
        (Tree, nat),
    >
        decreases depth, e, 0nat,
    {
        match e {
            Expr::Or(parts) => self.eval_or(parts@, 0, toks, pos, end, depth),
            Expr::And(parts, commit) => self.eval_and(
                parts@,
                0,
                match commit {
                    Some(c) => c as nat,
                    None => parts@.len(),
                },
                Seq::empty(),
                toks,
                pos,
                end,
                depth,
            ),
            Expr::Rule(id) => {
                if depth == 0 {
                    None
                } else {
                    match self.eval(self.rules@[id as int].body, toks, pos, end, (depth - 1) as nat) {
                        Some((t, p)) => Some(
                            (Tree::Composite { ty: self.rule_type(id as int), children: seq![t] }, p),
                        ),
                        None => None,
                    }
                }
            },
            Expr::Token(ty) => {
                if pos < end && toks[pos as int].ty == self.node_types@[ty as int] {
                    Some((Tree::Leaf { ty: toks[pos as int].ty, token_idx: pos }, pos + 1))
                } else {
                    None
                }
            },
            Expr::Rep(body) => self.eval_rep(*body, Seq::empty(), toks, pos, end, depth),
            Expr::Opt(body) => match self.eval(*body, toks, pos, end, depth) {
                Some(r) => Some(r),
                None => Some((empty_tree(None), pos)),
            },
            Expr::Not(tys) => {
                if pos < end && !self.type_in(tys@, toks[pos as int].ty) {
                    Some((Tree::Leaf { ty: toks[pos as int].ty, token_idx: pos }, pos + 1))
                } else {
                    None
                }
            },
            Expr::Ahead(tys) => {
                if pos < end && self.type_in(tys@, toks[pos as int].ty) {
                    Some((empty_tree(None), pos))
                } else {
                    None
                }
            },
            Expr::Eof => {
                if pos >= end {
                    Some((empty_tree(None), pos))
                } else {
                    None
                }
            },
            Expr::Layer(outer, inner) => match self.eval(*outer, toks, pos, end, depth) {
                Some((_, rest)) => Some((self.eval_layer(*inner, toks, pos, rest, depth), rest)),
                None => None,
            },
            Expr::SkipUntil(tys) => {
                let stop = self.skip_end(tys@, toks, pos, end);
                if stop > pos {
                    Some((error_tree(toks, pos, stop), stop))
                } else {
                    Some((empty_tree(None), pos))
                }
            },
        }
    }

    /// The alternatives of `parts` from index `i` on, tried in order.
    pub open spec fn eval_or(
        &self,
        parts: Seq<Expr>,
        i: nat,
        toks: Seq<Token>,
        pos: nat,
        end: nat,
        depth: nat,
    ) -> Option<(Tree, nat)>
        decreases depth, parts, parts.len() - i,
    {
        if i >= parts.len() {
            None
        } else {
            match self.eval(parts[i as int], toks, pos, end, depth) {
                Some(r) => Some(r),
                None => self.eval_or(parts, i + 1, toks, pos, end, depth),
            }
        }
    }

    /// The parts of `parts` from index `i` on, one after the other, where
    /// `done` holds what the parts before `i` parsed.
    pub open spec fn eval_and(
        &self,
        parts: Seq<Expr>,
        i: nat,
        commit: nat,
        done: Seq<Tree>,
        toks: Seq<Token>,
        pos: nat,
        end: nat,
        depth: nat,
    ) -> Option<(Tree, nat)>
        decreases depth, parts, parts.len() - i,
    {
        if i >= parts.len() {
            Some((group(done), pos))
        } else {
            match self.eval(parts[i as int], toks, pos, end, depth) {
                Some((t, p)) => self.eval_and(parts, i + 1, commit, done.push(t), toks, p, end, depth),
                None => if i < commit {
                    None
                } else {
                    Some((group(done.push(empty_tree(Some(NodeType::error())))), pos))
                },
            }
        }
    }

    /// `body` as often as it parses, where `done` holds what it parsed so
    /// far. A round that parses without taking a token is the last.
    pub open spec fn eval_rep(
        &self,
        body: Expr,
        done: Seq<Tree>,
        toks: Seq<Token>,
        pos: nat,
        end: nat,
        depth: nat,
    ) -> Option<(Tree, nat)>
        decreases depth, body, 1 + end - pos,
    {
        if pos > end {
            Some((group(done), pos))
        } else {
            match self.eval(body, toks, pos, end, depth) {
                Some((t, p)) => if pos < p <= end {
                    self.eval_rep(body, done.push(t), toks, p, end, depth)
                } else {
                    Some((group(done.push(t)), p))
                },
                None => Some((group(done), pos)),
            }
        }
    }

    /// What a layer makes of the tokens between `pos` and `rest`: what
    /// `inner` parses from them, followed by an error that holds the tokens
    /// that `inner` left, if it left any. Where `inner` fails it leaves them
    /// all.
    pub open spec fn eval_layer(
        &self,
        inner: Expr,
        toks: Seq<Token>,
        pos: nat,
        rest: nat,
        depth: nat,
    ) -> Tree
        decreases depth, inner, 1nat,
    {
        match self.eval(inner, toks, pos, rest, depth) {
            Some((t, left)) => if left < rest {
                group(seq![t, error_tree(toks, left, rest)])
            } else {
                group(seq![t])
            },
            None => if pos < rest {
                group(seq![error_tree(toks, pos, rest)])
            } else {
                group(Seq::empty())
            },
        }
    }
}


/// Whether `r` is the outcome `expected` for a parse that started at
/// `tokens`: the same tree, the cursor where the tree ends, and a tree
/// whose leaves are exactly the tokens that the cursor passed.
pub open spec fn parsed<'t>(
    r: Option<(Node, TokenSequence<'t>)>,
    tokens: TokenSequence<'t>,
    expected: Option<(Tree, nat)>,
) -> bool {
    match r {
        Some((node, rest)) => {
            &&& expected == Some((node.model(), rest.pos as nat))
            &&& node.wf()
            &&& rest.tokens == tokens.tokens
            &&& rest.end == tokens.end
            &&& tokens.pos <= rest.pos <= tokens.end
            &&& tree_covers(node.model(), tokens.tokens@, tokens.pos as nat)
            &&& tree_len(node.model()) == rest.pos - tokens.pos
        },
        None => expected is None,
    }
}

/// Wraps the tokens that `tokens` still sees in an error node.
pub fn collect_error<'t>(tokens: TokenSequence<'t>) -> (r: Node)
    requires
        tokens.wf(),
    ensures
        r.model() == error_tree(tokens.tokens@, tokens.pos as nat, tokens.end as nat),
        r.wf(),
{
    let mut error = Node::error();
    let mut cur = tokens;
    let ghost toks = tokens.tokens@;
    assert(leaves_between(toks, tokens.pos as nat, tokens.pos as nat) =~= Seq::empty());
    while cur.current().is_some()
        invariant
            cur.wf(),
            cur.tokens == tokens.tokens,
            cur.end == tokens.end,
            tokens.pos <= cur.pos,
            toks == tokens.tokens@,
            error.wf(),
            error.model() == error_tree(toks, tokens.pos as nat, cur.pos as nat),
        decreases cur.end - cur.pos,
    {
        proof {
            lemma_leaves_between(toks, tokens.pos as nat, cur.pos as nat);
            assert(leaves_between(toks, tokens.pos as nat, cur.pos as nat).push(
                Tree::Leaf { ty: toks[cur.pos as int].ty, token_idx: cur.pos as nat },
            ) =~= leaves_between(toks, tokens.pos as nat, (cur.pos + 1) as nat));
        }
        let p = cur.take_leaf();
        error.push_child(p.0);
        cur = p.1;
    }
    error
}

impl<'r> Parser<'r> {
    /// A parser for the grammar `rules`, whose indices of node types refer
    /// to `node_types`.
    pub fn new(node_types: &'r [NodeType], rules: &'r [SynRule]) -> (r: Parser<'r>)
        ensures
            r.node_types == node_types,
            r.rules == rules,
    {
        Parser { node_types, rules }
    }

    /// The node type with index `idx`.
    pub fn node_type(&self, idx: usize) -> (r: NodeType)
        requires
            idx < self.node_types@.len(),
        ensures
            r == self.node_types@[idx as int],
    {
        self.node_types[idx]
    }

    /// Whether the type of `token` is among the node types with the indices
    /// `tys`.
    pub fn token_set_contains(&self, tys: &[usize], token: Token) -> (r: bool)
        requires
            indices_below(tys@, self.node_types@.len() as nat),
        ensures
            r == self.type_in(tys@, token.ty),
    {
        let mut i: usize = 0;
        while i < tys.len()
            invariant
                i <= tys@.len(),
                indices_below(tys@, self.node_types@.len() as nat),
                forall|j: int| 0 <= j < i ==> self.node_types@[#[trigger] tys@[j] as int] != token.ty,
            decreases tys.len() - i,
        {
            if self.node_type(tys[i]) == token.ty {
                return true;
            }
            i += 1;
        }
        false
    }

    /// Parses `expr` at `tokens`. On success the node and the cursor behind
    /// it come back; on failure nothing does, and nothing was consumed.
    #[verifier::rlimit(30)]
    pub fn parse_exp<'t>(&self, expr: &Expr, tokens: TokenSequence<'t>, depth: usize) -> (r: Option<
        (Node, TokenSequence<'t>),
    >)
        requires
            self.wf(),
            self.admits(*expr),
            tokens.wf(),
        ensures
            parsed(
                r,
                tokens,
                self.eval(*expr, tokens.tokens@, tokens.pos as nat, tokens.end as nat, depth as nat),
            ),
        decreases depth, *expr, 0nat,
    {
        let ghost toks = tokens.tokens@;
        match expr {
            Expr::Or(parts) => self.parse_or(parts, tokens, depth),
            Expr::And(parts, commit) => self.parse_and(parts, *commit, tokens, depth),
            Expr::Rule(id) => {
                if depth == 0 {
                    return None;
                }
                let rule = &self.rules[*id];
                let ty = match rule.ty {
                    Some(ty) => Some(self.node_type(ty)),
                    None => None,
                };
                match self.parse_exp(&rule.body, tokens, depth - 1) {
                    Some((node, rest)) => {
                        let mut result = Node::composite(ty);
                        result.push_child(node);
                        proof {
                            assert(Seq::<Tree>::empty().push(node.model()) =~= seq![node.model()]);
                            lemma_forest_len_push(Seq::empty(), node.model());
                            lemma_forest_covers_push(Seq::empty(), node.model(), toks, tokens.pos as nat);
                        }
                        Some((result, rest))
                    },
                    None => None,
                }
            },
            Expr::Token(ty) => {
                match tokens.current() {
                    Some(current) => {
                        if self.node_type(*ty) == current.ty {
                            Some(tokens.take_leaf())
                        } else {
                            None
                        }
                    },
                    None => None,
                }
            },
            Expr::Opt(body) => {
                match self.parse_exp(body, tokens, depth) {
                    Some(r) => Some(r),
                    None => Some((Node::composite(None), tokens)),
                }
            },
            Expr::Not(tys) => {
                match tokens.current() {
                    Some(current) => {
                        if !self.token_set_contains(tys.as_slice(), current) {
                            Some(tokens.take_leaf())
                        } else {
                            None
                        }
                    },
                    None => None,
                }
            },
            Expr::Ahead(tys) => {
                match tokens.current() {
                    Some(current) => {
                        if self.token_set_contains(tys.as_slice(), current) {
                            Some((Node::composite(None), tokens))
                        } else {
                            None
                        }
                    },
                    None => None,
                }
            },
            Expr::Eof => {
                if tokens.current().is_none() {
                    Some((Node::composite(None), tokens))
                } else {
                    None
                }
            },
            Expr::Layer(outer, inner) => {
                match self.parse_exp(outer, tokens, depth) {
                    Some((layer_node, rest)) => {
                        let mut result = Node::composite(None);
                        let layer = tokens.tokens_of_node(&layer_node);
                        let ghost mut done = Seq::<Tree>::empty();
                        let leftovers = match self.parse_exp(inner, layer, depth) {
                            Some((layer_contents, leftovers)) => {
                                proof {
                                    lemma_forest_len_push(done, layer_contents.model());
                                    lemma_forest_covers_push(
                                        done,
                                        layer_contents.model(),
                                        toks,
                                        tokens.pos as nat,
                                    );
                                    done = done.push(layer_contents.model());
                                }
                                result.push_child(layer_contents);
                                leftovers
                            },
                            None => layer,
                        };
                        if leftovers.current().is_some() {
                            let error = collect_error(leftovers);
                            proof {
                                lemma_leaves_between(toks, leftovers.pos as nat, rest.pos as nat);
                                lemma_forest_len_push(done, error.model());
                                lemma_forest_covers_push(done, error.model(), toks, tokens.pos as nat);
                                done = done.push(error.model());
                            }
                            result.push_child(error);
                        }
                        proof {
                            assert(result.model() == group(done));
                            let want = self.eval_layer(
                                **inner,
                                toks,
                                tokens.pos as nat,
                                rest.pos as nat,
                                depth as nat,
                            );
                            assert(want matches Tree::Composite { ty: None, children }
                                && children =~= done);
                            assert(result.model() == want);
                        }
                        Some((result, rest))
                    },
                    None => None,
                }
            },
            Expr::Rep(body) => self.parse_rep(body, tokens, depth),
            Expr::SkipUntil(tys) => {
                let mut result = Node::error();
                let mut cur = tokens;
                assert(leaves_between(toks, tokens.pos as nat, tokens.pos as nat) =~= Seq::empty());
                loop
                    invariant
                        self.wf(),
                        indices_below(tys@, self.node_types@.len() as nat),
                        cur.wf(),
                        cur.tokens == tokens.tokens,
                        cur.end == tokens.end,
                        tokens.pos <= cur.pos,
                        toks == tokens.tokens@,
                        result.wf(),
                        result.model() == error_tree(toks, tokens.pos as nat, cur.pos as nat),
                        self.skip_end(tys@, toks, tokens.pos as nat, tokens.end as nat)
                            == self.skip_end(tys@, toks, cur.pos as nat, tokens.end as nat),
                    ensures
                        self.skip_end(tys@, toks, cur.pos as nat, tokens.end as nat) == cur.pos,
                    decreases cur.end - cur.pos,
                {
                    match cur.current() {
                        Some(t) => {
                            if self.token_set_contains(tys.as_slice(), t) {
                                break ;
                            }
                            proof {
                                assert(leaves_between(
                                    toks,
                                    tokens.pos as nat,
                                    cur.pos as nat,
                                ).push(Tree::Leaf { ty: toks[cur.pos as int].ty, token_idx: cur.pos as nat })
                                    =~= leaves_between(
                                    toks,
                                    tokens.pos as nat,
                                    (cur.pos + 1) as nat,
                                ));
                                lemma_leaves_between(toks, tokens.pos as nat, cur.pos as nat);
                            }
                            let p = cur.take_leaf();
                            result.push_child(p.0);
                            cur = p.1;
                        },
                        None => {
                            break ;
                        },
                    }
                }
                proof {
                    lemma_leaves_between(toks, tokens.pos as nat, cur.pos as nat);
                }
                if cur.pos == tokens.pos {
                    result = Node::composite(None);
                }
                Some((result, cur))
            },
        }
    }

    /// Tries the alternatives `parts` in order; the first that parses wins.
    fn parse_or<'t>(&self, parts: &Vec<Expr>, tokens: TokenSequence<'t>, depth: usize) -> (r: Option<
        (Node, TokenSequence<'t>),
    >)
        requires
            self.wf(),
            exprs_wf(parts@, self.rules@.len() as nat, self.node_types@.len() as nat),
            tokens.wf(),
        ensures
            parsed(
                r,
                tokens,
                self.eval_or(parts@, 0, tokens.tokens@, tokens.pos as nat, tokens.end as nat, depth as nat),
            ),
        decreases depth, parts@, 1nat,
    {
        let ghost toks = tokens.tokens@;
        let mut i: usize = 0;
        while i < parts.len()
            invariant
                i <= parts@.len(),
                self.wf(),
                exprs_wf(parts@, self.rules@.len() as nat, self.node_types@.len() as nat),
                tokens.wf(),
                toks == tokens.tokens@,
                self.eval_or(parts@, 0, toks, tokens.pos as nat, tokens.end as nat, depth as nat)
                    == self.eval_or(parts@, i as nat, toks, tokens.pos as nat, tokens.end as nat, depth as nat),
            decreases parts.len() - i,
        {
            match self.parse_exp(&parts[i], tokens, depth) {
                Some(result) => {
                    return Some(result);
                },
                None => {},
            }
            i += 1;
        }
        None
    }

    /// Parses `parts` one after the other into an anonymous composite.
    #[verifier::rlimit(30)]
    fn parse_and<'t>(
        &self,
        parts: &Vec<Expr>,
        commit: Option<usize>,
        tokens: TokenSequence<'t>,
        depth: usize,
    ) -> (r: Option<(Node, TokenSequence<'t>)>)
        requires
            self.wf(),
            exprs_wf(parts@, self.rules@.len() as nat, self.node_types@.len() as nat),
            tokens.wf(),
        ensures
            parsed(
                r,
                tokens,
                self.eval_and(
                    parts@,
                    0,
                    match commit {
                        Some(c) => c as nat,
                        None => parts@.len(),
                    },
                    Seq::empty(),
                    tokens.tokens@,
                    tokens.pos as nat,
                    tokens.end as nat,
                    depth as nat,
                ),
            ),
        decreases depth, parts@, 1nat,
    {
        let ghost toks = tokens.tokens@;
        let mut node = Node::composite(None);
        let limit: usize = match commit {
            Some(c) => c,
            None => parts.len(),
        };
        let mut cur = tokens;
        let ghost mut done = Seq::<Tree>::empty();
        let mut i: usize = 0;
        while i < parts.len()
            invariant
                i <= parts@.len(),
                self.wf(),
                exprs_wf(parts@, self.rules@.len() as nat, self.node_types@.len() as nat),
                cur.wf(),
                cur.tokens == tokens.tokens,
                cur.end == tokens.end,
                tokens.pos <= cur.pos,
                toks == tokens.tokens@,
                node.wf(),
                node.model() == group(done),
                forest_covers(done, toks, tokens.pos as nat),
                forest_len(done) == cur.pos - tokens.pos,
                limit as nat == (match commit {
                    Some(c) => c as nat,
                    None => parts@.len(),
                }),
                self.eval_and(
                    parts@,
                    0,
                    limit as nat,
                    Seq::empty(),
                    toks,
                    tokens.pos as nat,
                    tokens.end as nat,
                    depth as nat,
                ) == self.eval_and(
                    parts@,
                    i as nat,
                    limit as nat,
                    done,
                    toks,
                    cur.pos as nat,
                    tokens.end as nat,
                    depth as nat,
                ),
            decreases parts.len() - i,
        {
            match self.parse_exp(&parts[i], cur, depth) {
                Some((n, rest)) => {
                    proof {
                        lemma_forest_len_push(done, n.model());
                        lemma_forest_covers_push(done, n.model(), toks, tokens.pos as nat);
                        done = done.push(n.model());
                    }
                    cur = rest;
                    node.push_child(n);
                },
                None => {
                    if i < limit {
                        return None;
                    }
                    let error_node = Node::error();
                    proof {
                        lemma_forest_len_push(done, error_node.model());
                        lemma_forest_covers_push(done, error_node.model(), toks, tokens.pos as nat);
                    }
                    node.push_child(error_node);
                    return Some((node, cur));
                },
            }
            i += 1;
        }
        Some((node, cur))
    }

    /// Parses `body` as often as it parses and takes a token.
    #[verifier::rlimit(30)]
    fn parse_rep<'t>(&self, body: &Expr, tokens: TokenSequence<'t>, depth: usize) -> (r: Option<
        (Node, TokenSequence<'t>),
    >)
        requires
            self.wf(),
            self.admits(*body),
            tokens.wf(),
        ensures
            parsed(
                r,
                tokens,
                self.eval_rep(
                    *body,
                    Seq::empty(),
                    tokens.tokens@,
                    tokens.pos as nat,
                    tokens.end as nat,
                    depth as nat,
                ),
            ),
            r is Some,
        decreases depth, *body, 1nat,
    {
        let ghost toks = tokens.tokens@;
        let mut node = Node::composite(None);
        let mut cur = tokens;
        let ghost mut done = Seq::<Tree>::empty();
        loop
            invariant
                self.wf(),
                self.admits(*body),
                cur.wf(),
                cur.tokens == tokens.tokens,
                cur.end == tokens.end,
                tokens.pos <= cur.pos,
                toks == tokens.tokens@,
                node.wf(),
                node.model() == group(done),
                forest_covers(done, toks, tokens.pos as nat),
                forest_len(done) == cur.pos - tokens.pos,
                self.eval_rep(
                    *body,
                    Seq::empty(),
                    toks,
                    tokens.pos as nat,
                    tokens.end as nat,
                    depth as nat,
                ) == self.eval_rep(*body, done, toks, cur.pos as nat, tokens.end as nat, depth as nat),
            decreases cur.end - cur.pos,
        {
            match self.parse_exp(body, cur, depth) {
                Some((n, rest)) => {
                    let advanced = rest.pos > cur.pos;
                    proof {
                        lemma_forest_len_push(done, n.model());
                        lemma_forest_covers_push(done, n.model(), toks, tokens.pos as nat);
                        done = done.push(n.model());
                    }
                    node.push_child(n);
                    cur = rest;
                    if !advanced {
                        return Some((node, cur));
                    }
                },
                None => {
                    return Some((node, cur));
                },
            }
        }
    }
}


/// Whether every index of `tys` is below `n`.
pub fn indices_ok(tys: &Vec<usize>, n: usize) -> (r: bool)
    ensures
        r == indices_below(tys@, n as nat),
{
    let mut i: usize = 0;
    while i < tys.len()
        invariant
            i <= tys@.len(),
            forall|j: int| 0 <= j < i ==> #[trigger] tys@[j] < n,
        decreases tys.len() - i,
    {
        if tys[i] >= n {
            return false;
        }
        i += 1;
    }
    true
}

/// Whether every expression of `parts` names only rules and node types
/// that exist.
pub fn exprs_ok(parts: &Vec<Expr>, n_rules: usize, n_types: usize) -> (r: bool)
    ensures
        r == exprs_wf(parts@, n_rules as nat, n_types as nat),
    decreases parts@, 1nat,
{
    let mut i: usize = 0;
    while i < parts.len()
        invariant
            i <= parts@.len(),
            forall|j: int| 0 <= j < i ==> expr_wf(#[trigger] parts@[j], n_rules as nat, n_types as nat),
        decreases parts.len() - i,
    {
        if !expr_ok(&parts[i], n_rules, n_types) {
            return false;
        }
        i += 1;
    }
    true
}

/// Whether `e` names only rules and node types that exist, where there are
/// `n_rules` rules and `n_types` node types.
pub fn expr_ok(e: &Expr, n_rules: usize, n_types: usize) -> (r: bool)
    ensures
        r == expr_wf(*e, n_rules as nat, n_types as nat),
    decreases *e, 0nat,
{
    match e {
        Expr::Or(parts) => exprs_ok(parts, n_rules, n_types),
        Expr::And(parts, _) => exprs_ok(parts, n_rules, n_types),
        Expr::Rule(id) => *id < n_rules,
        Expr::Token(ty) => *ty < n_types,
        Expr::Rep(body) => expr_ok(body, n_rules, n_types),
        Expr::Opt(body) => expr_ok(body, n_rules, n_types),
        Expr::Not(tys) => indices_ok(tys, n_types),
        Expr::Ahead(tys) => indices_ok(tys, n_types),
        Expr::Eof => true,
        Expr::Layer(outer, inner) => expr_ok(outer, n_rules, n_types) && expr_ok(
            inner,
            n_rules,
            n_types,
        ),
        Expr::SkipUntil(tys) => indices_ok(tys, n_types),
    }
}

impl<'r> Parser<'r> {
    /// A grammar can parse a text when it is well formed and its first
    /// rule, with which every parse starts, has a type.
    pub open spec fn ready(&self) -> bool {
        &&& self.wf()
        &&& self.rules@.len() > 0
        &&& self.rules@[0].ty is Some
    }

    /// Whether this grammar can parse a text.
    pub fn is_ready(&self) -> (r: bool)
        ensures
            r == self.ready(),
    {
        if self.rules.len() == 0 || self.rules[0].ty.is_none() {
            return false;
        }
        let mut i: usize = 0;
        while i < self.rules.len()
            invariant
                i <= self.rules@.len(),
                forall|j: int|
                    0 <= j < i ==> {
                        &&& (#[trigger] self.rules@[j]).ty matches Some(ty) ==> ty
                            < self.node_types@.len()
                        &&& expr_wf(self.rules@[j].body, self.rules@.len(), self.node_types@.len())
                    },
            decreases self.rules.len() - i,
        {
            let rule = &self.rules[i];
            let typed = match rule.ty {
                Some(ty) => ty < self.node_types.len(),
                None => true,
            };
            if !typed || !expr_ok(&rule.body, self.rules.len(), self.node_types.len()) {
                return false;
            }
            i += 1;
        }
        true
    }

    /// The tree for the tokens between `pos` and `end`: what the first rule
    /// parses, or an empty node of its type where it fails, and behind that
    /// an error that holds the tokens which the rule left, if it left any.
    pub open spec fn parse_tree(&self, toks: Seq<Token>, pos: nat, end: nat) -> Tree {
        let (file, left) = match self.eval(Expr::Rule(0), toks, pos, end, usize::MAX as nat) {
            Some(r) => r,
            None => (empty_tree(self.rule_type(0)), pos),
        };
        if left < end {
            tree_with_child(file, error_tree(toks, left, end))
        } else {
            file
        }
    }

    /// Parses all the tokens that `tokens` sees. The tree always comes
    /// back and always holds every one of them.
    pub fn parse<'t>(&self, tokens: TokenSequence<'t>) -> (r: Node)
        requires
            self.ready(),
            tokens.wf(),
        ensures
            r.model() == self.parse_tree(tokens.tokens@, tokens.pos as nat, tokens.end as nat),
            r.wf(),
            r.model() is Composite,
            tree_covers(r.model(), tokens.tokens@, tokens.pos as nat),
            tree_len(r.model()) == tokens.end - tokens.pos,
    {
        let ghost toks = tokens.tokens@;
        let start = Expr::Rule(0);
        let (mut file_node, leftover) = match self.parse_exp(&start, tokens, usize::MAX) {
            Some(r) => r,
            None => {
                let ty = match self.rules[0].ty {
                    Some(ty) => Some(self.node_type(ty)),
                    None => None,
                };
                (Node::composite(ty), tokens)
            },
        };
        if leftover.current().is_some() {
            let error = collect_error(leftover);
            proof {
                lemma_leaves_between(toks, leftover.pos as nat, tokens.end as nat);
                let children = file_node.model()->Composite_children;
                lemma_forest_len_push(children, error.model());
                lemma_forest_covers_push(children, error.model(), toks, tokens.pos as nat);
            }
            file_node.push_child(error);
        }
        file_node
    }

    /// `Rep` has a result and never fails, whatever its body is: a body that
    /// parses without taking a token, such as an `Opt`, ends the repetition.
    pub proof fn lemma_rep_always_parses(
        &self,
        body: Expr,
        toks: Seq<Token>,
        pos: nat,
        end: nat,
        depth: nat,
    )
        ensures
            self.eval(Expr::Rep(Box::new(body)), toks, pos, end, depth) is Some,
    {
        self.lemma_rep_rounds(body, Seq::empty(), toks, pos, end, depth);
    }

    /// The rounds of a repetition that are still to come never fail.
    pub proof fn lemma_rep_rounds(
        &self,
        body: Expr,
        done: Seq<Tree>,
        toks: Seq<Token>,
        pos: nat,
        end: nat,
        depth: nat,
    )
        ensures
            self.eval_rep(body, done, toks, pos, end, depth) is Some,
        decreases 1 + end - pos,
    {
        if pos <= end {
            match self.eval(body, toks, pos, end, depth) {
                Some((t, p)) => {
                    if pos < p <= end {
                        self.lemma_rep_rounds(body, done.push(t), toks, p, end, depth);
                    }
                },
                None => {},
            }
        }
    }

    /// A layer takes exactly the tokens that its outer expression takes:
    /// it parses where the outer expression parses, and leaves the cursor
    /// where the outer expression leaves it. The inner expression decides
    /// only the tree, so nothing that goes wrong inside reaches a token
    /// behind the outer expression.
    pub proof fn lemma_layer_is_local(
        &self,
        outer: Expr,
        inner: Expr,
        toks: Seq<Token>,
        pos: nat,
        end: nat,
        depth: nat,
    )
        ensures
            match self.eval(outer, toks, pos, end, depth) {
                Some((_, rest)) => self.eval(
                    Expr::Layer(Box::new(outer), Box::new(inner)),
                    toks,
                    pos,
                    end,
                    depth,
                ) == Some((self.eval_layer(inner, toks, pos, rest, depth), rest)),
                None => self.eval(
                    Expr::Layer(Box::new(outer), Box::new(inner)),
                    toks,
                    pos,
                    end,
                    depth,
                ) is None,
            },
    {
    }
}


/// Whether a result of the interpreter that started at token `first` and
/// stood at token `pos` keeps within the tokens: where it is a success, its
/// cursor lies between `pos` and `end`, and the leaves of its tree are
/// exactly the tokens from `first` up to its cursor, one after the other.
pub open spec fn keeps_within(
    r: Option<(Tree, nat)>,
    toks: Seq<Token>,
    first: nat,
    pos: nat,
    end: nat,
) -> bool {
    r matches Some((t, p)) ==> {
        &&& pos <= p <= end
        &&& tree_covers(t, toks, first)
        &&& tree_len(t) == p - first
    }
}

impl<'r> Parser<'r> {
    /// `SkipUntil` stops between the cursor and the end.
    pub proof fn lemma_skip_end(&self, tys: Seq<usize>, toks: Seq<Token>, pos: nat, end: nat)
        requires
            pos <= end,
        ensures
            pos <= self.skip_end(tys, toks, pos, end) <= end,
        decreases end - pos,
    {
        if pos < end && !self.type_in(tys, toks[pos as int].ty) {
            self.lemma_skip_end(tys, toks, pos + 1, end);
        }
    }

    /// Whatever an expression parses, it parses from the tokens ahead and
    /// loses none: the cursor never moves back nor past the end, and the
    /// leaves of the tree are exactly the tokens that the cursor passed.
    pub proof fn lemma_eval_keeps_within(
        &self,
        e: Expr,
        toks: Seq<Token>,
        pos: nat,
        end: nat,
        depth: nat,
    )
        requires
            pos <= end <= toks.len(),
        ensures
            keeps_within(self.eval(e, toks, pos, end, depth), toks, pos, pos, end),
        decreases depth, e, 0nat,
    {
        match e {
            Expr::Or(parts) => {
                self.lemma_eval_or_keeps_within(parts@, 0, toks, pos, end, depth);
            },
            Expr::And(parts, commit) => {
                let limit = match commit {
                    Some(c) => c as nat,
                    None => parts@.len(),
                };
                self.lemma_eval_and_keeps_within(
                    parts@,
                    0,
                    limit,
                    Seq::empty(),
                    toks,
                    pos,
                    pos,
                    end,
                    depth,
                );
            },
            Expr::Rule(id) => {
                if depth > 0 {
                    let body = self.rules@[id as int].body;
                    self.lemma_eval_keeps_within(body, toks, pos, end, (depth - 1) as nat);
                    match self.eval(body, toks, pos, end, (depth - 1) as nat) {
                        Some((t, p)) => {
                            assert(Seq::<Tree>::empty().push(t) =~= seq![t]);
                            lemma_forest_len_push(Seq::empty(), t);
                            lemma_forest_covers_push(Seq::empty(), t, toks, pos);
                        },
                        None => {},
                    }
                }
            },
            Expr::Token(_) => {},
            Expr::Rep(body) => {
                self.lemma_eval_rep_keeps_within(*body, Seq::empty(), toks, pos, pos, end, depth);
            },
            Expr::Opt(body) => {
                self.lemma_eval_keeps_within(*body, toks, pos, end, depth);
            },
            Expr::Not(_) => {},
            Expr::Ahead(_) => {},
            Expr::Eof => {},
            Expr::Layer(outer, inner) => {
                self.lemma_eval_keeps_within(*outer, toks, pos, end, depth);
                match self.eval(*outer, toks, pos, end, depth) {
                    Some((_, rest)) => {
                        self.lemma_eval_layer_keeps_within(*inner, toks, pos, rest, depth);
                    },
                    None => {},
                }
            },
            Expr::SkipUntil(tys) => {
                self.lemma_skip_end(tys@, toks, pos, end);
                lemma_leaves_between(toks, pos, self.skip_end(tys@, toks, pos, end));
            },
        }
    }

    /// The alternatives of `Or` keep within the tokens.
    pub proof fn lemma_eval_or_keeps_within(
        &self,
        parts: Seq<Expr>,
        i: nat,
        toks: Seq<Token>,
        pos: nat,
        end: nat,
        depth: nat,
    )
        requires
            pos <= end <= toks.len(),
        ensures
            keeps_within(self.eval_or(parts, i, toks, pos, end, depth), toks, pos, pos, end),
        decreases depth, parts, parts.len() - i,
    {
        if i < parts.len() {
            self.lemma_eval_keeps_within(parts[i as int], toks, pos, end, depth);
            self.lemma_eval_or_keeps_within(parts, i + 1, toks, pos, end, depth);
        }
    }

    /// The parts of `And` keep within the tokens, where `done` holds the
    /// tokens from `first` up to the cursor.
    pub proof fn lemma_eval_and_keeps_within(
        &self,
        parts: Seq<Expr>,
        i: nat,
        commit: nat,
        done: Seq<Tree>,
        toks: Seq<Token>,
        first: nat,
        pos: nat,
        end: nat,
        depth: nat,
    )
        requires
            first <= pos <= end <= toks.len(),
            forest_covers(done, toks, first),
            forest_len(done) == pos - first,
        ensures
            keeps_within(
                self.eval_and(parts, i, commit, done, toks, pos, end, depth),
                toks,
                first,
                pos,
                end,
            ),
        decreases depth, parts, parts.len() - i,
    {
        if i < parts.len() {
            self.lemma_eval_keeps_within(parts[i as int], toks, pos, end, depth);
            match self.eval(parts[i as int], toks, pos, end, depth) {
                Some((t, p)) => {
                    lemma_forest_len_push(done, t);
                    lemma_forest_covers_push(done, t, toks, first);
                    self.lemma_eval_and_keeps_within(
                        parts,
                        i + 1,
                        commit,
                        done.push(t),
                        toks,
                        first,
                        p,
                        end,
                        depth,
                    );
                },
                None => {
                    let error = empty_tree(Some(NodeType::error()));
                    lemma_forest_len_push(done, error);
                    lemma_forest_covers_push(done, error, toks, first);
                },
            }
        }
    }

    /// The rounds of `Rep` keep within the tokens, where `done` holds the
    /// tokens from `first` up to the cursor.
    pub proof fn lemma_eval_rep_keeps_within(
        &self,
        body: Expr,
        done: Seq<Tree>,
        toks: Seq<Token>,
        first: nat,
        pos: nat,
        end: nat,
        depth: nat,
    )
        requires
            first <= pos <= end <= toks.len(),
            forest_covers(done, toks, first),
            forest_len(done) == pos - first,
        ensures
            keeps_within(
                self.eval_rep(body, done, toks, pos, end, depth),
                toks,
                first,
                pos,
                end,
            ),
        decreases depth, body, 1 + end - pos,
    {
        self.lemma_eval_keeps_within(body, toks, pos, end, depth);
        match self.eval(body, toks, pos, end, depth) {
            Some((t, p)) => {
                lemma_forest_len_push(done, t);
                lemma_forest_covers_push(done, t, toks, first);
                if pos < p <= end {
                    self.lemma_eval_rep_keeps_within(body, done.push(t), toks, first, p, end, depth);
                }
            },
            None => {},
        }
    }

    /// What a layer makes of the tokens of its outer expression holds
    /// exactly those tokens.
    pub proof fn lemma_eval_layer_keeps_within(
        &self,
        inner: Expr,
        toks: Seq<Token>,
        pos: nat,
        rest: nat,
        depth: nat,
    )
        requires
            pos <= rest <= toks.len(),
        ensures
            tree_covers(self.eval_layer(inner, toks, pos, rest, depth), toks, pos),
            tree_len(self.eval_layer(inner, toks, pos, rest, depth)) == rest - pos,
        decreases depth, inner, 1nat,
    {
        self.lemma_eval_keeps_within(inner, toks, pos, rest, depth);
        match self.eval(inner, toks, pos, rest, depth) {
            Some((t, left)) => {
                assert(Seq::<Tree>::empty().push(t) =~= seq![t]);
                lemma_forest_len_push(Seq::empty(), t);
                lemma_forest_covers_push(Seq::empty(), t, toks, pos);
                if left < rest {
                    let error = error_tree(toks, left, rest);
                    lemma_leaves_between(toks, left, rest);
                    assert(seq![t].push(error) =~= seq![t, error]);
                    lemma_forest_len_push(seq![t], error);
                    lemma_forest_covers_push(seq![t], error, toks, pos);
                }
            },
            None => {
                if pos < rest {
                    let error = error_tree(toks, pos, rest);
                    lemma_leaves_between(toks, pos, rest);
                    assert(Seq::<Tree>::empty().push(error) =~= seq![error]);
                    lemma_forest_len_push(Seq::empty(), error);
                    lemma_forest_covers_push(Seq::empty(), error, toks, pos);
                }
            },
        }
    }

    /// The tree of a parse holds every token that the parser was given, one
    /// after the other: what the first rule left stands in the error at the
    /// end.
    pub proof fn lemma_parse_tree_holds_all(&self, toks: Seq<Token>, pos: nat, end: nat)
        requires
            pos <= end <= toks.len(),
        ensures
            self.parse_tree(toks, pos, end) is Composite,
            tree_covers(self.parse_tree(toks, pos, end), toks, pos),
            tree_len(self.parse_tree(toks, pos, end)) == end - pos,
    {
        self.lemma_eval_keeps_within(Expr::Rule(0), toks, pos, end, usize::MAX as nat);
        let (file, left) = match self.eval(Expr::Rule(0), toks, pos, end, usize::MAX as nat) {
            Some(r) => r,
            None => (empty_tree(self.rule_type(0)), pos),
        };
        if left < end {
            let error = error_tree(toks, left, end);
            lemma_leaves_between(toks, left, end);
            let children = file->Composite_children;
            lemma_forest_len_push(children, error);
            lemma_forest_covers_push(children, error, toks, pos);
        }
    }
}

} // verus!
