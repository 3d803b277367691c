//! The tree builder: takes tokens one by one into a stack of unfinished
//! nodes and keeps the trivia between the nodes.
use crate::language::Language;
use crate::lex::{callable, fails, lexed, measures, tiles, tokenize, Rule, Token};
use crate::node::{
    lemma_forest_on_boundaries, on_boundaries, range_in_text, ranges_in_text, tokens_in_text,
    trivia_types, File, FileBuilder,
};
use crate::node_type::NodeType;
use crate::pre::{forest_model, leaf, lemma_forest_model, pre_tokens, PreNode};
use crate::state::{close_frame, same_spine, significant, token_chain, FrameModel, Model};
use crate::tree_builder::{forest_view, Node};
use crate::text::{TextRange, TextUnit};
use vstd::prelude::*;
use vstd::utf8::{encode_utf8, encode_utf8_valid_utf8, is_char_boundary, valid_utf8};

verus! {

/// A node that was started and is not finished yet.
#[derive(Debug)]
struct Frame {
    ty: NodeType,
    children: Vec<PreNode>,
    start_token: usize,
}

/// Builds the tree of a text from its tokens.
pub struct TreeBuilder {
    text: String,
    skip: Vec<NodeType>,
    tokens: Vec<Token>,
    pending: Vec<Frame>,
    current_token: usize,
}

/// The model of one frame.
spec fn frame_model(f: Frame) -> FrameModel {
    FrameModel { ty: f.ty, children: forest_model(f.children@), start_token: f.start_token as nat }
}

/// The models of the frames, in their order.
spec fn frames_model(fs: Seq<Frame>) -> Seq<FrameModel> {
    Seq::new(fs.len(), |i: int| frame_model(fs[i]))
}

impl View for TreeBuilder {
    type V = Model;

    /// What the builder holds.
    closed spec fn view(&self) -> Model {
        Model {
            tokens: self.tokens@,
            skip: self.skip@.to_set(),
            frames: frames_model(self.pending@),
            cursor: self.current_token as nat,
        }
    }
}

/// Whether `ty` is one of `tys`.
pub fn contains_type(tys: &[NodeType], ty: NodeType) -> (r: bool)
    ensures
        r == tys@.contains(ty),
{
    let mut i: usize = 0;
    while i < tys.len()
        invariant
            i <= tys@.len(),
            forall|j: int| 0 <= j < i ==> tys@[j] != ty,
        decreases tys.len() - i,
    {
        if tys[i] == ty {
            return true;
        }
        i += 1;
    }
    false
}

/// Tokens that cover a text form a chain.
pub proof fn lemma_tiles_chain(tokens: Seq<Token>, bytes: Seq<u8>, upto: int)
    requires
        tiles(tokens, bytes, upto),
    ensures
        token_chain(tokens),
{
}

impl TreeBuilder {
    /// The text that is being parsed.
    pub closed spec fn text(&self) -> Seq<char> {
        self.text@
    }

    /// The builder is sound when its state is sound between two steps and
    /// its tokens cover its text.
    pub closed spec fn wf(&self) -> bool {
        &&& self@.wf()
        &&& self.input_ok()
    }

    /// Whether the tokens cover the text and white space alone is trivia.
    pub closed spec fn input_ok(&self) -> bool {
        &&& tiles(self.tokens@, encode_utf8(self.text@), encode_utf8(self.text@).len() as int)
        &&& encode_utf8(self.text@).len() <= u32::MAX
        &&& self.skip@.to_set() == trivia_types()
    }

    /// Whether `other` works on the same text, tokens and trivia types.
    pub closed spec fn same_input(&self, other: &TreeBuilder) -> bool {
        &&& self.text == other.text
        &&& self.tokens == other.tokens
        &&& self.skip == other.skip
    }

    /// Builders on the same input have the same tokens and trivia types in
    /// their models.
    pub proof fn lemma_same_input(&self, other: &TreeBuilder)
        requires
            self.same_input(other),
        ensures
            self@.tokens == other@.tokens,
            self@.skip == other@.skip,
            self.text() == other.text(),
            self@.wf() && other.wf() ==> self.wf(),
    {
    }

    /// A sound builder has a sound state, its tokens cover its text, and
    /// white space alone is trivia for it.
    pub proof fn lemma_wf(&self)
        requires
            self.wf(),
        ensures
            self@.wf(),
            self@.skip == trivia_types(),
            tiles(self@.tokens, encode_utf8(self.text()), encode_utf8(self.text()).len() as int),
            encode_utf8(self.text()).len() <= u32::MAX,
    {
    }

    /// Whether tokens of type `ty` are trivia.
    fn is_skip(&self, ty: NodeType) -> (r: bool)
        ensures
            r == self@.skip.contains(ty),
    {
        contains_type(self.skip.as_slice(), ty)
    }

    /// The next token, if one is left.
    fn current(&self) -> (r: Option<Token>)
        ensures
            r == (if self.current_token < self.tokens@.len() {
                Some(self.tokens@[self.current_token as int])
            } else {
                None
            }),
    {
        if self.current_token < self.tokens.len() {
            Some(self.tokens[self.current_token])
        } else {
            None
        }
    }

    /// Takes the next token as a leaf of the innermost node.
    fn bump(&mut self)
        requires
            old(self).pending@.len() >= 1,
            old(self).current_token < old(self).tokens@.len(),
        ensures
            final(self)@ == old(self)@.bump(),
            final(self).same_input(old(self)),
            final(self).pending@.len() == old(self).pending@.len(),
    {
        let t = self.tokens[self.current_token];
        assert(self.current_token < self.tokens.len());
        self.current_token = self.current_token + 1;
        let n = self.pending.len() - 1;
        let ghost before = self.pending@[n as int].children@;
        let node = PreNode { ty: t.ty, range: t.range, children: Vec::new() };
        assert(node.model() == leaf(t));
        self.pending[n].children.push(node);
        proof {
            assert(self.pending@[n as int].children@.drop_last() =~= before);
            assert(self@.frames =~= old(self)@.bump().frames);
        }
    }

    /// Takes trivia as long as the next token is trivia.
    fn do_skip(&mut self)
        requires
            old(self).pending@.len() >= 1,
        ensures
            final(self)@ == old(self)@.absorb(),
            final(self).same_input(old(self)),
            final(self).pending@.len() == old(self).pending@.len(),
    {
        loop
            invariant
                self.pending@.len() == old(self).pending@.len(),
                self.pending@.len() >= 1,
                self@.absorb() == old(self)@.absorb(),
                self.same_input(old(self)),
            decreases self.tokens@.len() - self.current_token,
        {
            match self.current() {
                Some(t) => {
                    if !self.is_skip(t.ty) {
                        return ;
                    }
                    self.bump();
                },
                None => {
                    return ;
                },
            }
        }
    }

    /// The node that `frame` becomes when it is finished.
    fn to_prenode(&self, frame: Frame) -> (r: PreNode)
        ensures
            r.model() == close_frame(frame_model(frame), self.tokens@),
    {
        proof {
            lemma_forest_model(frame.children@);
        }
        let n = frame.children.len();
        let range = if n == 0 {
            let len = self.tokens.len();
            let start = if frame.start_token < len {
                self.tokens[frame.start_token].range.start
            } else if len == 0 {
                TextUnit(0)
            } else {
                self.tokens[len - 1].range.end
            };
            TextRange { start, end: start }
        } else {
            TextRange { start: frame.children[0].range.start, end: frame.children[n - 1].range.end }
        };
        PreNode { ty: frame.ty, range, children: frame.children }
    }

    /// Opens a node of type `ty` at the next token. No token is taken.
    pub fn start(&mut self, ty: NodeType)
        requires
            old(self).wf(),
        ensures
            final(self)@ == old(self)@.start(ty),
            final(self).wf(),
            final(self).same_input(old(self)),
    {
        proof {
            self@.lemma_start(ty);
        }
        self.pending.push(Frame { ty, children: Vec::new(), start_token: self.current_token });
        proof {
            assert(self@.frames =~= old(self)@.start(ty).frames);
        }
    }

    /// Finishes the innermost node, which has the type `ty`. Trivia at its
    /// end are given back and become children of the node around it, where
    /// the finished node becomes a child too.
    pub fn finish(&mut self, ty: NodeType)
        requires
            old(self).wf(),
            old(self)@.frames.len() >= 2,
            old(self)@.top().ty == ty,
        ensures
            final(self)@ == old(self)@.finish(),
            final(self).wf(),
            final(self).same_input(old(self)),
            final(self)@.cursor >= old(self)@.cursor,
            same_spine(
                Model { frames: old(self)@.frames.drop_last(), ..old(self)@ },
                final(self)@,
            ),
    {
        proof {
            self@.lemma_finish_forward();
            self@.lemma_finish_spine();
        }
        self.finish_top();
    }

    #[verifier::rlimit(30)]
    /// Finishes the innermost node, whatever its type is.
    fn finish_top(&mut self)
        requires
            old(self)@.inner_wf(),
            old(self)@.frames.len() >= 2,
            old(self).input_ok(),
        ensures
            final(self)@ == old(self)@.finish(),
            final(self).wf(),
            final(self).same_input(old(self)),
    {
        let n = self.pending.len() - 1;
        proof {
            old(self)@.lemma_finish();
        }
        loop
            invariant
                self.pending@.len() == old(self).pending@.len(),
                n == self.pending@.len() - 1,
                n >= 1,
                self@.inner_wf(),
                self@.trim() == old(self)@.trim(),
                self.same_input(old(self)),
            ensures
                self@ == old(self)@.trim(),
            decreases self.pending@[n as int].children@.len(),
        {
            let count = self.pending[n].children.len();
            if count == 0 {
                break ;
            }
            proof {
                lemma_forest_model(self.pending@[n as int].children@);
                lemma_forest_model(self.pending@[n as int].children@[count - 1].children@);
            }
            let last = &self.pending[n].children[count - 1];
            let trivia = last.children.len() == 0 && last.range.start.0 < last.range.end.0
                && self.is_skip(last.ty);
            if !trivia {
                break ;
            }
            proof {
                self@.lemma_trim_step();
            }
            let ghost before = self@;
            let ghost children = self.pending@[n as int].children@;
            self.pending[n].children.pop();
            self.current_token = self.current_token - 1;
            proof {
                assert(self.pending@[n as int].children@ =~= children.drop_last());
                assert(forest_model(children.drop_last()) =~= forest_model(children).drop_last());
                assert(self@.frames =~= before.with_top(
                    before.top().children.drop_last(),
                    (before.cursor - 1) as nat,
                ).frames);
            }
        }
        let ghost trimmed = self@;
        let top = self.pending.pop().unwrap();
        assert(frame_model(top) == trimmed.top());
        let node = self.to_prenode(top);
        let m = self.pending.len() - 1;
        let ghost outer = self.pending@[m as int].children@;
        self.pending[m].children.push(node);
        proof {
            assert(self.pending@[m as int].children@.drop_last() =~= outer);
            assert(self@.frames =~= trimmed.close().frames);
        }
        self.do_skip();
    }

    /// Gives up the innermost node, which has the type `ty`, together with
    /// what it holds. The tokens that were taken into it are ahead again.
    pub fn rollback(&mut self, ty: NodeType)
        requires
            old(self).wf(),
            old(self)@.frames.len() >= 2,
            old(self)@.top().ty == ty,
        ensures
            final(self)@ == old(self)@.rollback(),
            final(self).wf(),
            final(self).same_input(old(self)),
    {
        self.rollback_top();
    }

    /// Gives up the innermost node, whatever its type is.
    fn rollback_top(&mut self)
        requires
            old(self)@.inner_wf(),
            old(self)@.frames.len() >= 2,
            old(self).input_ok(),
        ensures
            final(self)@ == old(self)@.rollback(),
            final(self).wf(),
            final(self).same_input(old(self)),
    {
        proof {
            self@.lemma_rollback();
        }
        let top = self.pending.pop().unwrap();
        self.current_token = top.start_token;
        proof {
            assert(self@.frames =~= old(self)@.rollback().frames);
        }
    }

    /// Takes the next token if it has the type `ty`, together with the
    /// trivia behind it, and says whether it did.
    pub fn try_eat(&mut self, ty: NodeType) -> (r: bool)
        requires
            old(self).wf(),
        ensures
            r == old(self)@.at(ty),
            final(self)@ == old(self)@.try_eat(ty),
            final(self).wf(),
            final(self).same_input(old(self)),
            final(self)@.cursor >= old(self)@.cursor,
            same_spine(old(self)@, final(self)@),
    {
        proof {
            self@.lemma_try_eat(ty);
            self@.lemma_try_eat_spine(ty);
        }
        let t = match self.current() {
            None => {
                return false;
            },
            Some(t) => t,
        };
        if t.ty == ty {
            self.bump();
            self.do_skip();
            true
        } else {
            false
        }
    }

    /// Puts the tokens up to the next one whose type is in `tys` into an
    /// error node. Where the very next token has such a type, or none is
    /// left, nothing happens.
    #[verifier::rlimit(30)]
    pub fn skip_until(&mut self, tys: &[NodeType])
        requires
            old(self).wf(),
        ensures
            final(self)@ == old(self)@.skip_until(tys@),
            final(self).wf(),
            final(self).same_input(old(self)),
            final(self)@.cursor >= old(self)@.cursor,
            same_spine(old(self)@, final(self)@),
    {
        proof {
            self@.lemma_absorb_settled();
            self@.lemma_skip_until(tys@);
            self@.lemma_skip_until_spine(tys@);
            self@.lemma_start(NodeType::error());
        }
        self.do_skip();
        self.start(NodeType::error());
        let ghost opened = self@;
        let mut skipped = false;
        loop
            invariant
                self.pending@.len() == opened.frames.len(),
                self.pending@.len() >= 2,
                self@.inner_wf(),
                self@.may_bump(),
                self@.bump_until(tys@) == opened.bump_until(tys@),
                self@.cursor >= opened.cursor,
                skipped == (self@.cursor > opened.cursor),
                self.same_input(old(self)),
                opened.wf(),
                opened.top().children.len() == 0,
                self@.cursor == opened.cursor ==> self@ == opened,
            ensures
                self@ == opened.bump_until(tys@),
            decreases self.tokens@.len() - self.current_token,
        {
            match self.current() {
                Some(t) => {
                    if contains_type(tys, t.ty) {
                        break ;
                    }
                    if !self.is_skip(t.ty) {
                        skipped = true;
                    }
                    proof {
                        self@.lemma_bump();
                    }
                    self.bump();
                },
                None => {
                    break ;
                },
            }
        }
        if skipped {
            self.finish_top();
        } else {
            self.rollback_top();
        }
    }

    /// Calls `f` on this builder again and again until it answers `false`.
    /// Each call that answers `true` must have taken a token. What is left
    /// is what the call that answered `false` left.
    pub fn parse_many<F: Fn(&mut TreeBuilder) -> bool>(&mut self, f: &F)
        requires
            old(self).wf(),
            forall|b: &mut TreeBuilder| b.wf() ==> #[trigger] call_requires(*f, (b,)),
            forall|b: &mut TreeBuilder, more: bool|
                b.wf() && #[trigger] call_ensures(*f, (b,), more) ==> {
                    &&& final(b).wf()
                    &&& final(b).same_input(b)
                    &&& final(b)@.frames.len() == b@.frames.len()
                    &&& more ==> final(b)@.cursor > b@.cursor
                },
        ensures
            final(self).wf(),
            final(self).same_input(old(self)),
            final(self)@.frames.len() == old(self)@.frames.len(),
            exists|b: &mut TreeBuilder|
                #![trigger call_ensures(*f, (b,), false)]
                b.wf() && call_ensures(*f, (b,), false) && final(b)@ == final(self)@,
    {
        loop
            invariant
                self.wf(),
                self.same_input(old(self)),
                self@.frames.len() == old(self)@.frames.len(),
                forall|b: &mut TreeBuilder| b.wf() ==> #[trigger] call_requires(*f, (b,)),
                forall|b: &mut TreeBuilder, more: bool|
                    b.wf() && #[trigger] call_ensures(*f, (b,), more) ==> {
                        &&& final(b).wf()
                        &&& final(b).same_input(b)
                        &&& final(b)@.frames.len() == b@.frames.len()
                        &&& more ==> final(b)@.cursor > b@.cursor
                    },
            ensures
                exists|b: &mut TreeBuilder|
                    #![trigger call_ensures(*f, (b,), false)]
                    b.wf() && call_ensures(*f, (b,), false) && final(b)@ == self@,
            decreases self.tokens@.len() - self.current_token,
        {
            if !f(self) {
                break ;
            }
        }
    }

    /// Whether the next token has the type `ty`.
    pub fn next_is(&mut self, ty: NodeType) -> (r: bool)
        requires
            old(self).wf(),
        ensures
            r == old(self)@.at(ty),
            final(self)@ == old(self)@,
            final(self).wf(),
            final(self).same_input(old(self)),
    {
        proof {
            self@.lemma_absorb_settled();
        }
        self.do_skip();
        match self.current() {
            Some(t) => t.ty == ty,
            None => false,
        }
    }

    /// Marks the place of an error. The tree does not change.
    pub fn error(&mut self)
        ensures
            *final(self) == *old(self),
    {
    }

    /// A builder for `text` and its `tokens`, with an open root of type
    /// `file_type` that has already taken the trivia at the start.
    pub fn new(text: String, file_type: NodeType, tokens: Vec<Token>) -> (r: TreeBuilder)
        requires
            tiles(tokens@, encode_utf8(text@), encode_utf8(text@).len() as int),
            encode_utf8(text@).len() <= u32::MAX,
        ensures
            r.wf(),
            r.text() == text@,
            r@ == initial(tokens@, file_type).absorb(),
            r@.frames.len() == 1,
    {
        let mut skip: Vec<NodeType> = Vec::new();
        skip.push(NodeType::whitespace());
        let mut pending: Vec<Frame> = Vec::new();
        pending.push(Frame { ty: file_type, children: Vec::new(), start_token: 0 });
        let mut result = TreeBuilder { text, skip, tokens, pending, current_token: 0 };
        proof {
            let m = initial(tokens@, file_type);
            assert(result@.skip =~= m.skip) by {
                assert(skip@ =~= seq![NodeType::whitespace()]);
                assert forall|ty: NodeType| skip@.to_set().contains(ty) == set![
                    NodeType::whitespace(),
                ].contains(ty) by {
                    if ty == NodeType::whitespace() {
                        assert(skip@[0] == ty);
                    }
                }
            }
            assert(result@.frames =~= m.frames);
            assert(result@ == m);
            lemma_tiles_chain(tokens@, encode_utf8(text@), encode_utf8(text@).len() as int);
            lemma_initial(tokens@, file_type);
            m.lemma_absorb();
        }
        result.do_skip();
        result
    }

    /// The number of nodes that are open, the root among them.
    pub fn depth(&self) -> (r: usize)
        ensures
            r == self@.frames.len(),
    {
        self.pending.len()
    }

    /// The types of the nodes that are open, the root first.
    pub fn pending_types(&self) -> (r: Vec<NodeType>)
        ensures
            r@.len() == self@.frames.len(),
            forall|i: int| 0 <= i < r@.len() ==> r@[i] == (#[trigger] self@.frames[i]).ty,
    {
        let mut types: Vec<NodeType> = Vec::new();
        let mut i: usize = 0;
        while i < self.pending.len()
            invariant
                i <= self.pending@.len(),
                types@.len() == i,
                forall|k: int| 0 <= k < i ==> types@[k] == (#[trigger] self@.frames[k]).ty,
            decreases self.pending.len() - i,
        {
            types.push(self.pending[i].ty);
            i += 1;
        }
        types
    }

    /// The tokens of the text that the grammar sees, and how many of them
    /// lie before the next token to take.
    pub fn significant(&self) -> (r: (Vec<Token>, usize))
        requires
            self.wf(),
        ensures
            r.0@ == significant(self@.tokens, self@.skip, self@.tokens.len()),
            r.1 == significant(self@.tokens, self@.skip, self@.cursor).len(),
            r.1 <= r.0@.len(),
    {
        let mut seen: Vec<Token> = Vec::new();
        let mut before: usize = 0;
        let mut k: usize = 0;
        while k < self.tokens.len()
            invariant
                k <= self.tokens@.len(),
                self.current_token <= self.tokens@.len(),
                seen@ == significant(self@.tokens, self@.skip, k as nat),
                seen@.len() <= k,
                before == significant(
                    self@.tokens,
                    self@.skip,
                    if k <= self.current_token {
                        k as nat
                    } else {
                        self.current_token as nat
                    },
                ).len(),
                before <= seen@.len(),
            decreases self.tokens.len() - k,
        {
            let t = self.tokens[k];
            if !self.is_skip(t.ty) {
                seen.push(t);
                if k < self.current_token {
                    before = before + 1;
                }
            }
            k += 1;
        }
        (seen, before)
    }

    /// Writes the tree `node` of the interpreter into the builder: a leaf
    /// takes the next token if it has the type of the leaf, a composite with
    /// a type becomes a node around what its children write, and an
    /// anonymous composite leaves only what its children write.
    pub fn emit(&mut self, node: &Node)
        requires
            old(self).wf(),
        ensures
            final(self)@ == old(self)@.emit(node.model()),
            final(self).wf(),
            final(self).same_input(old(self)),
            same_spine(old(self)@, final(self)@),
        decreases node, 1nat,
    {
        proof {
            self@.lemma_emit(node.model());
        }
        match node {
            Node::Leaf { ty, .. } => {
                self.try_eat(*ty);
            },
            Node::Composite { ty, children, .. } => {
                match ty {
                    Some(ty) => {
                        self.start(*ty);
                        let ghost opened = self@;
                        self.emit_all(children);
                        proof {
                            opened.lemma_emit_all(forest_view(children@));
                        }
                        self.finish(*ty);
                    },
                    None => {
                        self.emit_all(children);
                    },
                }
            },
        }
    }

    /// Writes the trees `nodes` of the interpreter into the builder, one
    /// after the other.
    pub fn emit_all(&mut self, nodes: &Vec<Node>)
        requires
            old(self).wf(),
        ensures
            final(self)@ == old(self)@.emit_all(forest_view(nodes@)),
            final(self).wf(),
            final(self).same_input(old(self)),
            same_spine(old(self)@, final(self)@),
        decreases nodes@, 0nat,
    {
        proof {
            self@.lemma_emit_all(forest_view(nodes@));
        }
        let mut i: usize = 0;
        assert(nodes@.take(0) =~= Seq::<Node>::empty());
        while i < nodes.len()
            invariant
                i <= nodes@.len(),
                self.wf(),
                self.same_input(old(self)),
                self@ == old(self)@.emit_all(forest_view(nodes@.take(i as int))),
            decreases nodes.len() - i,
        {
            self.emit(&nodes[i]);
            proof {
                assert(nodes@.take(i + 1).drop_last() =~= nodes@.take(i as int));
                assert(nodes@.take(i + 1).last() == nodes@[i as int]);
                assert(forest_view(nodes@.take(i + 1)).drop_last() =~= forest_view(
                    nodes@.take(i as int),
                ));
            }
            i += 1;
        }
        proof {
            assert(nodes@.take(i as int) =~= nodes@);
        }
    }

    /// Ends the parse. The tokens that are left become an error node at
    /// the end of the root, and the root with all below it becomes the tree
    /// of a file of language `lang`.
    #[verifier::rlimit(30)]
    pub fn into_file(self, lang: Language) -> (r: File)
        requires
            self.wf(),
            self@.frames.len() == 1,
            lang.wf(),
        ensures
            r.wf(),
            r@ == self@.sweep().root(),
            r.source() == self.text(),
            r.names() == lang@,
            r.covers_text(),
            pre_tokens(r@) == self@.tokens,
            r@.ty == self@.frames[0].ty,
    {
        let ghost bytes = encode_utf8(self.text@);
        let ghost given = self;
        let mut this = self;
        proof {
            this@.lemma_sweep();
            this@.lemma_sweep_root();
            this@.sweep().lemma_root();
        }
        if this.current_token < this.tokens.len() {
            proof {
                this@.lemma_start(NodeType::error());
            }
            this.start(NodeType::error());
            let ghost opened = this@;
            loop
                invariant
                    this.pending@.len() == 2,
                    this@.inner_wf(),
                    this@.may_bump(),
                    this@.bump_until(Seq::empty()) == opened.bump_until(Seq::empty()),
                    this.same_input(&given),
                ensures
                    this@ == opened.bump_until(Seq::empty()),
                decreases this.tokens@.len() - this.current_token,
            {
                if this.current_token >= this.tokens.len() {
                    break ;
                }
                proof {
                    this@.lemma_bump();
                }
                this.bump();
            }
            this.finish_top();
        }
        let ghost swept = this@;
        let top = this.pending.pop().unwrap();
        let root = this.to_prenode(top);
        assert(root.model() == swept.root());
        let mut builder = FileBuilder::new(lang, this.text);
        builder.tree(None, &root);
        proof {
            broadcast use encode_utf8_valid_utf8;

            let p = root.model();
            let tokens = swept.tokens;
            assert(valid_utf8(bytes));
            assert(tokens_in_text(tokens, bytes)) by {
                assert forall|i: int| 0 <= i < tokens.len() implies range_in_text(
                    (#[trigger] tokens[i]).range,
                    bytes,
                ) by {
                    reveal_with_fuel(is_char_boundary, 1);
                }
            }
            if tokens.len() > 0 {
                assert(p.range.end.0 == bytes.len());
            } else {
                assert(p.range.end.0 == 0);
            }
            if p.children.len() > 0 {
                assert(crate::pre::forest_tokens(p.children) == tokens);
                lemma_forest_on_boundaries(p.children, swept.skip, bytes, p.range.start, p.range.end);
            }
            assert(on_boundaries(p, bytes));
            assert(ranges_in_text(Seq::<crate::node::RawNode>::empty(), bytes));
        }
        let file = builder.build();
        proof {
            file.lemma_wf();
        }
        file
    }
}

/// Parses `text`: cuts it into tokens with the rules of `tokenizer`, lets
/// `parser` build the tree from them, and makes of the tree a file of
/// language `lang` whose root has the type `file_type`.
///
/// `parser` is called once, on a sound builder whose root alone is open,
/// and must leave such a builder, on the same text and with the same root.
/// Whatever else `parser` does, the tree holds every token of the text once
/// and in place. No file comes back only where the lexer cannot get through
/// the text.
#[verifier::rlimit(30)]
pub fn parse<F, P>(
    lang: Language,
    text: String,
    file_type: NodeType,
    tokenizer: &[Rule<F>],
    parser: &P,
) -> (r: Option<File>) where F: Fn(&str) -> Option<usize>, P: Fn(&mut TreeBuilder)
    requires
        lang.wf(),
        encode_utf8(text@).len() <= u32::MAX,
        callable(tokenizer@),
        measures(tokenizer@),
        forall|b: &mut TreeBuilder|
            b.wf() && b@.frames.len() == 1 ==> #[trigger] call_requires(*parser, (b,)),
        forall|b: &mut TreeBuilder|
            b.wf() && b@.frames.len() == 1 && #[trigger] call_ensures(*parser, (b,), ()) ==> {
                &&& final(b).wf()
                &&& final(b).same_input(b)
                &&& final(b)@.frames.len() == 1
                &&& final(b)@.frames[0].ty == b@.frames[0].ty
            },
    ensures
        match r {
            Some(file) => {
                &&& file.wf()
                &&& file.source() == text@
                &&& file.names() == lang@
                &&& file.covers_text()
                &&& file@.ty == file_type
                &&& lexed(
                    tokenizer@,
                    encode_utf8(text@),
                    pre_tokens(file@),
                    encode_utf8(text@).len() as int,
                )
                &&& exists|b: &mut TreeBuilder|
                    #![trigger call_ensures(*parser, (b,), ())]
                    {
                        &&& b@ == initial(pre_tokens(file@), file_type).absorb()
                        &&& call_ensures(*parser, (b,), ())
                        &&& file@ == final(b)@.sweep().root()
                    }
            },
            None => fails(tokenizer@, encode_utf8(text@)),
        },
{
    let tokens = match tokenize(text.as_str(), tokenizer) {
        Some(tokens) => tokens,
        None => {
            return None;
        },
    };
    let ghost toks = tokens@;
    let mut builder = TreeBuilder::new(text, file_type, tokens);
    let ghost fresh = builder;
    parser(&mut builder);
    proof {
        builder.lemma_same_input(&fresh);
        initial(toks, file_type).lemma_absorb_spine();
    }
    let file = builder.into_file(lang);
    Some(file)
}

/// The state of a fresh builder before it takes the trivia at the start:
/// the root is open and holds nothing, and only white space is trivia.
pub open spec fn initial(tokens: Seq<Token>, file_type: NodeType) -> Model {
    Model {
        tokens,
        skip: trivia_types(),
        frames: seq![FrameModel { ty: file_type, children: Seq::empty(), start_token: 0 }],
        cursor: 0,
    }
}

/// The state of a fresh builder is sound.
pub proof fn lemma_initial(tokens: Seq<Token>, file_type: NodeType)
    requires
        token_chain(tokens),
    ensures
        initial(tokens, file_type).inner_wf(),
        initial(tokens, file_type).may_bump(),
{
    reveal(Model::frame_ok);
    let m = initial(tokens, file_type);
    assert(crate::pre::forest_tokens(m.frames[0].children) =~= Seq::<Token>::empty());
    assert(tokens.subrange(0, 0) =~= Seq::<Token>::empty());
    assert(m.frame_ok(0));
}

} // verus!
