//! The mathematical model of the tree builder: what it holds at any moment,
//! what each of its steps makes of that, and why every step keeps it sound.
use crate::lex::{adjacent, Token};
use crate::node_type::NodeType;
use crate::pre::{
    chained, forest_tokens, is_trivia, joined, leaf, lemma_chain_steps, pre_tokens, pre_wf, root_wf,
    Pre,
};
use crate::text::{TextRange, TextUnit};
use crate::tree_builder::{forest_covers, forest_len, tree_covers, tree_len, Tree};
use vstd::prelude::*;

verus! {

/// A node that was started and is not finished yet.
pub struct FrameModel {
    /// The type that the node will have.
    pub ty: NodeType,
    /// The children that the node has so far.
    pub children: Seq<Pre>,
    /// The index of the token at which the node was started.
    pub start_token: nat,
}

/// What a tree builder holds.
pub struct Model {
    /// All the tokens of the text.
    pub tokens: Seq<Token>,
    /// The types of the tokens that the grammar does not see.
    pub skip: Set<NodeType>,
    /// The unfinished nodes, the root first and the innermost last.
    pub frames: Seq<FrameModel>,
    /// The index of the next token to take.
    pub cursor: nat,
}

/// Whether `tokens` start at the first byte, none of them is empty, and each
/// starts where the one before it ends.
pub open spec fn token_chain(tokens: Seq<Token>) -> bool {
    &&& tokens.len() > 0 ==> tokens[0].range.start.0 == 0
    &&& forall|i: int| 0 <= i < tokens.len() ==> (#[trigger] tokens[i]).range.start.0 < tokens[i].range.end.0
    &&& forall|i: int| 0 <= i < tokens.len() - 1 ==> #[trigger] adjacent(tokens, i)
}

/// The offset in the text at which token `k` starts. Behind the last token
/// this is the end of the text.
pub open spec fn offset_at(tokens: Seq<Token>, k: nat) -> TextUnit {
    if k < tokens.len() {
        tokens[k as int].range.start
    } else if tokens.len() == 0 {
        TextUnit(0)
    } else {
        tokens.last().range.end
    }
}

/// The node that a frame becomes when it is finished. With children it
/// reaches from the start of the first to the end of the last. Without any
/// it is empty and stands where the token at which it was started starts.
pub open spec fn close_frame(f: FrameModel, tokens: Seq<Token>) -> Pre {
    Pre {
        ty: f.ty,
        range: if f.children.len() == 0 {
            TextRange { start: offset_at(tokens, f.start_token), end: offset_at(tokens, f.start_token) }
        } else {
            TextRange { start: f.children[0].range.start, end: f.children.last().range.end }
        },
        children: f.children,
    }
}

impl Model {
    /// The innermost unfinished node.
    pub open spec fn top(self) -> FrameModel {
        self.frames.last()
    }

    /// The index of the token before which frame `i` ends so far.
    pub open spec fn frame_end(self, i: int) -> nat {
        if i + 1 < self.frames.len() {
            self.frames[i + 1].start_token
        } else {
            self.cursor
        }
    }

    /// Whether the token with index `k` is one that the grammar sees, or
    /// `k` is behind the last token.
    pub open spec fn settled_at(self, k: nat) -> bool {
        k < self.tokens.len() ==> !self.skip.contains(self.tokens[k as int].ty)
    }

    /// This state with `children` as the children of the innermost frame
    /// and with the cursor at `cursor`.
    pub open spec fn with_top(self, children: Seq<Pre>, cursor: nat) -> Model {
        Model {
            frames: self.frames.update(
                self.frames.len() - 1,
                FrameModel { children, ..self.top() },
            ),
            cursor,
            ..self
        }
    }

    /// Whether frame `i` is sound: its children hold exactly the tokens
    /// from its start to its end and fill the text between them without a
    /// gap, each child is a sound tree, and, but for the root, the frame was
    /// started at a token that the grammar sees and does not begin with
    /// trivia.
    #[verifier::opaque]
    pub open spec fn frame_ok(self, i: int) -> bool {
        let f = self.frames[i];
        &&& f.start_token <= self.frame_end(i) <= self.tokens.len()
        &&& forest_tokens(f.children) == self.tokens.subrange(
            f.start_token as int,
            self.frame_end(i) as int,
        )
        &&& chained(
            f.children,
            offset_at(self.tokens, f.start_token),
            offset_at(self.tokens, self.frame_end(i)),
        )
        &&& forall|j: int| 0 <= j < f.children.len() ==> pre_wf(#[trigger] f.children[j], self.skip)
        &&& i > 0 ==> self.settled_at(f.start_token) && (f.children.len() > 0 ==> !is_trivia(
            self.skip,
            f.children[0],
        ))
    }

    /// Whether the state is sound while a step is under way.
    pub open spec fn inner_wf(self) -> bool {
        &&& token_chain(self.tokens)
        &&& self.frames.len() >= 1
        &&& self.cursor <= self.tokens.len()
        &&& self.frames[0].start_token == 0
        &&& forall|i: int| 0 <= i < self.frames.len() ==> self.frame_ok(i)
    }

    /// Whether the state is sound between two steps: it is sound, and the
    /// cursor stands before a token that the grammar sees or at the end.
    pub open spec fn wf(self) -> bool {
        &&& self.inner_wf()
        &&& self.settled_at(self.cursor)
    }

    /// Whether the next token may be taken into the innermost frame without
    /// making the frame begin with trivia.
    pub open spec fn may_bump(self) -> bool {
        ||| self.frames.len() == 1
        ||| self.top().children.len() > 0
        ||| self.settled_at(self.cursor)
    }

    /// Takes the next token as a leaf of the innermost frame.
    pub open spec fn bump(self) -> Model {
        self.with_top(self.top().children.push(leaf(self.tokens[self.cursor as int])), self.cursor + 1)
    }

    /// Takes trivia as long as the next token is trivia.
    pub open spec fn absorb(self) -> Model
        decreases self.tokens.len() - self.cursor,
    {
        if self.cursor < self.tokens.len() && self.skip.contains(self.tokens[self.cursor as int].ty) {
            self.bump().absorb()
        } else {
            self
        }
    }

    /// Opens a frame of type `ty` at the cursor.
    pub open spec fn start(self, ty: NodeType) -> Model {
        Model {
            frames: self.frames.push(
                FrameModel { ty, children: Seq::empty(), start_token: self.cursor },
            ),
            ..self
        }
    }

    /// Gives the trivia at the end of the innermost frame back: takes the
    /// leaves off and moves the cursor before them.
    pub open spec fn trim(self) -> Model
        decreases self.top().children.len(),
    {
        let cs = self.top().children;
        if self.frames.len() > 0 && cs.len() > 0 && is_trivia(self.skip, cs.last()) && self.cursor > 0 {
            self.with_top(cs.drop_last(), (self.cursor - 1) as nat).trim()
        } else {
            self
        }
    }

    /// Makes the innermost frame a node and the last child of the frame
    /// around it.
    pub open spec fn close(self) -> Model {
        let node = close_frame(self.top(), self.tokens);
        let outer = Model { frames: self.frames.drop_last(), ..self };
        outer.with_top(outer.top().children.push(node), self.cursor)
    }

    /// Finishes the innermost frame: the trivia at its end go back, the
    /// node joins the frame around it, and that frame takes the trivia.
    pub open spec fn finish(self) -> Model {
        self.trim().close().absorb()
    }

    /// Gives up the innermost frame and what it holds: the cursor goes back
    /// to where the frame was started.
    pub open spec fn rollback(self) -> Model {
        Model { frames: self.frames.drop_last(), cursor: self.top().start_token, ..self }
    }

    /// Whether the next token has the type `ty`.
    pub open spec fn at(self, ty: NodeType) -> bool {
        self.cursor < self.tokens.len() && self.tokens[self.cursor as int].ty == ty
    }

    /// Takes the next token if it has the type `ty`, and the trivia behind
    /// it.
    pub open spec fn try_eat(self, ty: NodeType) -> Model {
        if self.at(ty) {
            self.bump().absorb()
        } else {
            self
        }
    }

    /// Takes tokens until the next one has one of the types `tys`.
    pub open spec fn bump_until(self, tys: Seq<NodeType>) -> Model
        decreases self.tokens.len() - self.cursor,
    {
        if self.cursor < self.tokens.len() && !tys.contains(self.tokens[self.cursor as int].ty) {
            self.bump().bump_until(tys)
        } else {
            self
        }
    }

    /// Puts the tokens up to the next one of a type in `tys` into an error
    /// node, if there is any such token that the grammar sees.
    pub open spec fn skip_until(self, tys: Seq<NodeType>) -> Model {
        let opened = self.absorb().start(NodeType::error());
        let skipped = opened.bump_until(tys);
        if skipped.cursor > opened.cursor {
            skipped.finish()
        } else {
            skipped.rollback()
        }
    }

    /// Puts all the tokens that are left into an error node at the end of
    /// the innermost frame. Trivia at the very end stay outside of it.
    pub open spec fn sweep(self) -> Model {
        if self.cursor < self.tokens.len() {
            self.start(NodeType::error()).bump_until(Seq::empty()).finish()
        } else {
            self
        }
    }

    /// The root of the tree, once the root is the one frame left.
    pub open spec fn root(self) -> Pre {
        close_frame(self.frames[0], self.tokens)
    }
}


/// A token ends where the next one starts, and the last one where the text
/// ends.
pub proof fn lemma_offset_next(tokens: Seq<Token>, k: nat)
    requires
        token_chain(tokens),
        k < tokens.len(),
    ensures
        offset_at(tokens, k + 1) == tokens[k as int].range.end,
        offset_at(tokens, k) == tokens[k as int].range.start,
{
    if k + 1 < tokens.len() {
        assert(adjacent(tokens, k as int));
    }
}

/// A chain that gets one more tree at its end, which starts where the chain
/// ended, is a chain up to the end of that tree.
pub proof fn lemma_chained_push(ps: Seq<Pre>, p: Pre, from: TextUnit, mid: TextUnit)
    requires
        chained(ps, from, mid),
        p.range.start == mid,
    ensures
        chained(ps.push(p), from, p.range.end),
{
    let all = ps.push(p);
    if ps.len() > 0 {
        assert(all[0] == ps[0]);
        assert forall|i: int| 0 <= i < all.len() - 1 implies #[trigger] joined(all, i) by {
            if i < ps.len() - 1 {
                assert(joined(ps, i));
                assert(all[i] == ps[i]);
                assert(all[i + 1] == ps[i + 1]);
            } else {
                assert(all[i] == ps.last());
            }
        }
    }
}

/// A chain that loses its last tree is a chain up to the start of that
/// tree.
pub proof fn lemma_chained_drop_last(ps: Seq<Pre>, from: TextUnit, to: TextUnit)
    requires
        ps.len() > 1,
        chained(ps, from, to),
    ensures
        chained(ps.drop_last(), from, ps.last().range.start),
{
    let short = ps.drop_last();
    assert(short[0] == ps[0]);
    assert(short.last() == ps[ps.len() - 2]);
    assert forall|i: int| 0 <= i < short.len() - 1 implies #[trigger] joined(short, i) by {
        assert(joined(ps, i));
        assert(short[i] == ps[i]);
        assert(short[i + 1] == ps[i + 1]);
    }
    assert(joined(ps, ps.len() - 2));
}

impl Model {
    /// A step that changes only the innermost frame and the cursor leaves
    /// the frames around it as sound as they were.
    pub proof fn lemma_outer_frames_kept(self, children: Seq<Pre>, cursor: nat, i: int)
        requires
            self.frames.len() >= 1,
            0 <= i < self.frames.len() - 1,
            self.frame_ok(i),
        ensures
            self.with_top(children, cursor).frame_ok(i),
    {
        reveal(Model::frame_ok);
        let after = self.with_top(children, cursor);
        assert(after.frames[i] == self.frames[i]);
        assert(after.frame_end(i) == self.frame_end(i));
    }

    /// Taking a token keeps the state sound.
    #[verifier::rlimit(30)]
    pub proof fn lemma_bump(self)
        requires
            self.inner_wf(),
            self.cursor < self.tokens.len(),
            self.may_bump(),
        ensures
            self.bump().inner_wf(),
            self.bump().frames.len() == self.frames.len(),
            self.bump().top().children.len() > 0,
            self.bump().cursor == self.cursor + 1,
    {
        reveal(Model::frame_ok);
        let n = self.frames.len() - 1;
        let t = self.tokens[self.cursor as int];
        let after = self.bump();
        let cs = self.top().children;
        let cs2 = cs.push(leaf(t));
        let a = self.top().start_token;
        assert(self.frame_ok(n));
        assert forall|i: int| 0 <= i < after.frames.len() implies after.frame_ok(i) by {
            assert(self.frame_ok(i));
            if i < n {
                self.lemma_outer_frames_kept(cs2, self.cursor + 1, i);
            } else {
                assert(after.frames[i].children == cs2);
                assert(cs2.drop_last() =~= cs);
                assert(pre_tokens(leaf(t)) =~= seq![t]);
                assert(self.tokens.subrange(a as int, self.cursor as int) + seq![t]
                    =~= self.tokens.subrange(a as int, self.cursor as int + 1));
                lemma_offset_next(self.tokens, self.cursor);
                lemma_chained_push(
                    cs,
                    leaf(t),
                    offset_at(self.tokens, a),
                    offset_at(self.tokens, self.cursor),
                );
                assert forall|j: int| 0 <= j < cs2.len() implies pre_wf(
                    #[trigger] cs2[j],
                    self.skip,
                ) by {
                    if j < cs.len() {
                        assert(cs2[j] == cs[j]);
                    }
                }
                if cs.len() > 0 {
                    assert(cs2[0] == cs[0]);
                } else if n > 0 {
                    assert(forest_tokens(cs) =~= Seq::<Token>::empty());
                    assert(a == self.cursor);
                }
            }
        }
    }

    /// Taking the trivia ahead keeps the state sound and leaves the cursor
    /// before a token that the grammar sees.
    pub proof fn lemma_absorb(self)
        requires
            self.inner_wf(),
            self.may_bump(),
        ensures
            self.absorb().wf(),
            self.absorb().frames.len() == self.frames.len(),
            self.absorb().cursor >= self.cursor,
            self.top().children.len() > 0 ==> self.absorb().top().children.len() > 0,
        decreases self.tokens.len() - self.cursor,
    {
        if self.cursor < self.tokens.len() && self.skip.contains(self.tokens[self.cursor as int].ty) {
            self.lemma_bump();
            self.bump().lemma_absorb();
        }
    }

    /// The tokens that `absorb` takes are all trivia.
    pub proof fn lemma_absorb_only_trivia(self)
        requires
            self.cursor <= self.tokens.len(),
        ensures
            self.absorb().tokens == self.tokens,
            self.absorb().skip == self.skip,
            self.cursor <= self.absorb().cursor <= self.tokens.len(),
            forall|k: int|
                self.cursor <= k < self.absorb().cursor ==> self.skip.contains(
                    (#[trigger] self.tokens[k]).ty,
                ),
        decreases self.tokens.len() - self.cursor,
    {
        if self.cursor < self.tokens.len() && self.skip.contains(self.tokens[self.cursor as int].ty) {
            self.bump().lemma_absorb_only_trivia();
        }
    }

    /// Where the cursor already stands before a token that the grammar
    /// sees, there is no trivia to take.
    pub proof fn lemma_absorb_settled(self)
        requires
            self.settled_at(self.cursor),
        ensures
            self.absorb() == self,
    {
    }

    /// Opening a frame keeps the state sound.
    pub proof fn lemma_start(self, ty: NodeType)
        requires
            self.wf(),
        ensures
            self.start(ty).wf(),
    {
        reveal(Model::frame_ok);
        let after = self.start(ty);
        let n = self.frames.len();
        assert forall|i: int| 0 <= i < after.frames.len() implies after.frame_ok(i) by {
            if i < n {
                assert(self.frame_ok(i));
                assert(after.frames[i] == self.frames[i]);
                assert(after.frame_end(i) == self.frame_end(i));
            } else {
                assert(forest_tokens(after.frames[i].children) =~= Seq::<Token>::empty());
                assert(self.tokens.subrange(self.cursor as int, self.cursor as int)
                    =~= Seq::<Token>::empty());
            }
        }
    }

    /// Giving the trivia at the end of a frame back keeps the state sound.
    /// The frame then does not end with trivia, and the tokens that went
    /// back are all trivia.
    pub proof fn lemma_trim(self)
        requires
            self.inner_wf(),
        ensures
            self.trim().inner_wf(),
            self.trim().frames.len() == self.frames.len(),
            self.trim().frames.drop_last() == self.frames.drop_last(),
            self.trim().top().ty == self.top().ty,
            self.trim().top().start_token == self.top().start_token,
            self.trim().top().children.len() > 0 ==> !is_trivia(
                self.skip,
                self.trim().top().children.last(),
            ),
            self.trim().cursor <= self.cursor,
            self.trim().skip == self.skip,
            self.trim().tokens == self.tokens,
            forall|k: int|
                self.trim().cursor <= k < self.cursor ==> self.skip.contains(
                    (#[trigger] self.tokens[k]).ty,
                ),
        decreases self.top().children.len(),
    {
        let cs = self.top().children;
        if cs.len() > 0 && is_trivia(self.skip, cs.last()) {
            self.lemma_trim_step();
            let next = self.with_top(cs.drop_last(), (self.cursor - 1) as nat);
            assert(next.frames.drop_last() =~= self.frames.drop_last());
            next.lemma_trim();
        }
    }

    /// The node that the innermost frame becomes is a sound tree that holds
    /// the tokens of the frame and reaches from its start to its end,
    /// provided the frame does not end with trivia.
    pub proof fn lemma_close_node(self)
        requires
            self.inner_wf(),
            self.frames.len() >= 2,
            self.top().children.len() > 0 ==> !is_trivia(self.skip, self.top().children.last()),
        ensures
            pre_wf(close_frame(self.top(), self.tokens), self.skip),
            !is_trivia(self.skip, close_frame(self.top(), self.tokens)),
            pre_tokens(close_frame(self.top(), self.tokens)) == self.tokens.subrange(
                self.top().start_token as int,
                self.cursor as int,
            ),
            close_frame(self.top(), self.tokens).range.start == offset_at(
                self.tokens,
                self.top().start_token,
            ),
            close_frame(self.top(), self.tokens).range.end == offset_at(self.tokens, self.cursor),
            self.top().start_token <= self.cursor,
    {
        reveal(Model::frame_ok);
        let n = self.frames.len() - 1;
        let top = self.top();
        let cs = top.children;
        let a = top.start_token;
        let node = close_frame(top, self.tokens);
        assert(self.frame_ok(n));
        if cs.len() > 0 {
            assert forall|k: int| 0 <= k < cs.len() implies (#[trigger] cs[k]).range.wf() by {
                assert(pre_wf(cs[k], self.skip));
            }
            lemma_chain_steps(cs, 0, cs.len() - 1);
            assert(cs.last().range.wf());
            assert(node.range.wf());
            assert(pre_tokens(node) == forest_tokens(cs));
        } else {
            assert(forest_tokens(cs) =~= Seq::<Token>::empty());
            assert(a == self.cursor);
            assert(pre_tokens(node) =~= Seq::<Token>::empty());
        }
    }

    /// Making the innermost frame a node keeps the state sound, provided
    /// the frame does not end with trivia.
    pub proof fn lemma_close(self)
        requires
            self.inner_wf(),
            self.frames.len() >= 2,
            self.top().children.len() > 0 ==> !is_trivia(self.skip, self.top().children.last()),
        ensures
            self.close().inner_wf(),
            self.close().frames.len() == self.frames.len() - 1,
            self.close().top().children.len() > 0,
            self.close().cursor == self.cursor,
    {
        reveal(Model::frame_ok);
        let n = self.frames.len() - 1;
        let a = self.top().start_token;
        let node = close_frame(self.top(), self.tokens);
        let after = self.close();
        let outer = self.frames[n - 1];
        let a0 = outer.start_token;
        self.lemma_close_node();
        assert(self.frame_ok(n - 1));
        assert(self.frame_end(n - 1) == a);
        assert(self.frames.drop_last().last() == outer);
        let pcs = outer.children;
        let pcs2 = pcs.push(node);
        assert(after.frames.len() == n);
        assert(after.top().children == pcs2);
        assert forall|i: int| 0 <= i < after.frames.len() implies after.frame_ok(i) by {
            assert(self.frame_ok(i));
            if i < n - 1 {
                assert(after.frames[i] == self.frames[i]);
                assert(after.frame_end(i) == self.frame_end(i));
            } else {
                self.lemma_close_outer();
            }
        }
    }

    /// The frame around the innermost one is sound once the innermost one
    /// has become its last child.
    #[verifier::rlimit(30)]
    pub proof fn lemma_close_outer(self)
        requires
            self.inner_wf(),
            self.frames.len() >= 2,
            self.top().children.len() > 0 ==> !is_trivia(self.skip, self.top().children.last()),
        ensures
            self.close().frame_ok(self.frames.len() - 2),
    {
        reveal(Model::frame_ok);
        let n = self.frames.len() - 1;
        let a = self.top().start_token;
        let node = close_frame(self.top(), self.tokens);
        let after = self.close();
        let outer = self.frames[n - 1];
        let a0 = outer.start_token;
        self.lemma_close_node();
        assert(self.frame_ok(n - 1));
        assert(self.frame_end(n - 1) == a);
        assert(self.frames.drop_last().last() == outer);
        let pcs = outer.children;
        let pcs2 = pcs.push(node);
        let i = n - 1;
        assert(after.frames[i].children == pcs2);
        assert(after.frames[i].start_token == a0);
        assert(after.frame_end(i) == self.cursor);
        assert(pcs2.drop_last() =~= pcs);
        assert(forest_tokens(pcs2) == forest_tokens(pcs) + pre_tokens(node));
        assert(self.tokens.subrange(a0 as int, a as int) + self.tokens.subrange(
            a as int,
            self.cursor as int,
        ) =~= self.tokens.subrange(a0 as int, self.cursor as int));
        lemma_chained_push(pcs, node, offset_at(self.tokens, a0), offset_at(self.tokens, a));
        assert forall|j: int| 0 <= j < pcs2.len() implies pre_wf(#[trigger] pcs2[j], self.skip) by {
            if j < pcs.len() {
                assert(pcs2[j] == pcs[j]);
            }
        }
        if pcs.len() > 0 {
            assert(pcs2[0] == pcs[0]);
        }
    }

    /// Finishing the innermost frame keeps the state sound.
    pub proof fn lemma_finish(self)
        requires
            self.inner_wf(),
            self.frames.len() >= 2,
        ensures
            self.finish().wf(),
            self.finish().frames.len() == self.frames.len() - 1,
            self.finish().top().children.len() > 0,
    {
        self.lemma_trim();
        self.trim().lemma_close();
        self.trim().close().lemma_absorb();
    }

    /// Giving up the innermost frame keeps the state sound.
    pub proof fn lemma_rollback(self)
        requires
            self.inner_wf(),
            self.frames.len() >= 2,
        ensures
            self.rollback().wf(),
            self.rollback().frames.len() == self.frames.len() - 1,
    {
        reveal(Model::frame_ok);
        let n = self.frames.len() - 1;
        let after = self.rollback();
        assert(self.frame_ok(n));
        assert forall|i: int| 0 <= i < after.frames.len() implies after.frame_ok(i) by {
            assert(self.frame_ok(i));
            assert(after.frames[i] == self.frames[i]);
            assert(after.frame_end(i) == self.frame_end(i));
        }
    }

    /// Taking a token of a wanted type, and the trivia behind it, keeps the
    /// state sound.
    pub proof fn lemma_try_eat(self, ty: NodeType)
        requires
            self.wf(),
        ensures
            self.try_eat(ty).wf(),
            self.try_eat(ty).frames.len() == self.frames.len(),
            self.try_eat(ty).cursor >= self.cursor,
    {
        if self.at(ty) {
            self.lemma_bump();
            self.bump().lemma_absorb();
        }
    }

    /// Taking tokens up to one of some types keeps the state sound.
    pub proof fn lemma_bump_until(self, tys: Seq<NodeType>)
        requires
            self.inner_wf(),
            self.may_bump(),
        ensures
            self.bump_until(tys).inner_wf(),
            self.bump_until(tys).frames.len() == self.frames.len(),
            self.bump_until(tys).cursor >= self.cursor,
        decreases self.tokens.len() - self.cursor,
    {
        if self.cursor < self.tokens.len() && !tys.contains(self.tokens[self.cursor as int].ty) {
            self.lemma_bump();
            self.bump().lemma_bump_until(tys);
        }
    }

    /// Skipping to a token of some types keeps the state sound.
    pub proof fn lemma_skip_until(self, tys: Seq<NodeType>)
        requires
            self.wf(),
        ensures
            self.skip_until(tys).wf(),
            self.skip_until(tys).frames.len() == self.frames.len(),
            self.skip_until(tys).cursor >= self.cursor,
    {
        self.lemma_absorb_settled();
        self.lemma_start(NodeType::error());
        let opened = self.start(NodeType::error());
        opened.lemma_bump_until(tys);
        let skipped = opened.bump_until(tys);
        if skipped.cursor > opened.cursor {
            skipped.lemma_finish();
            skipped.lemma_finish_forward();
        } else {
            opened.lemma_bump_until_spine(tys);
            skipped.lemma_rollback();
        }
    }

    /// Sweeping up the tokens that are left keeps the state sound, and
    /// leaves no token behind.
    pub proof fn lemma_sweep(self)
        requires
            self.wf(),
        ensures
            self.sweep().wf(),
            self.sweep().frames.len() == self.frames.len(),
            self.sweep().cursor == self.tokens.len(),
            self.sweep().tokens == self.tokens,
    {
        if self.cursor < self.tokens.len() {
            self.lemma_start(NodeType::error());
            let opened = self.start(NodeType::error());
            opened.lemma_bump_until(Seq::empty());
            opened.lemma_bump_all();
            let full = opened.bump_until(Seq::empty());
            full.lemma_finish();
            full.lemma_finish_forward();
        }
    }

    /// Taking tokens without a type to stop at takes them all.
    pub proof fn lemma_bump_all(self)
        requires
            self.cursor <= self.tokens.len(),
        ensures
            self.bump_until(Seq::empty()).cursor == self.tokens.len(),
            self.bump_until(Seq::empty()).tokens == self.tokens,
        decreases self.tokens.len() - self.cursor,
    {
        if self.cursor < self.tokens.len() {
            self.bump().lemma_bump_all();
        }
    }

    /// Trivia that a finished frame gave back are taken again: behind the
    /// finish the cursor stands where it stood before, or further on.
    pub proof fn lemma_finish_forward(self)
        requires
            self.inner_wf(),
            self.frames.len() >= 2,
        ensures
            self.finish().cursor >= self.cursor,
            self.finish().tokens == self.tokens,
    {
        self.lemma_trim();
        self.trim().lemma_close();
        let closed = self.trim().close();
        closed.lemma_absorb();
        closed.lemma_absorb_reaches(self.cursor);
    }

    /// One step of `trim` keeps the state sound.
    #[verifier::rlimit(30)]
    pub proof fn lemma_trim_step(self)
        requires
            self.inner_wf(),
            self.top().children.len() > 0,
            is_trivia(self.skip, self.top().children.last()),
        ensures
            self.cursor > 0,
            self.with_top(self.top().children.drop_last(), (self.cursor - 1) as nat).inner_wf(),
            self.skip.contains(self.tokens[self.cursor - 1].ty),
    {
        reveal(Model::frame_ok);
        let cs = self.top().children;
        let n = self.frames.len() - 1;
        assert(self.frame_ok(n));
        let a = self.top().start_token;
        let last = cs.last();
        let t = Token { ty: last.ty, range: last.range };
        assert(pre_tokens(last) =~= seq![t]);
        let covered = self.tokens.subrange(a as int, self.cursor as int);
        assert(covered == forest_tokens(cs.drop_last()) + seq![t]);
        assert(covered.len() > 0);
        assert(covered.last() == t);
        assert(self.tokens[self.cursor - 1] == t);
        let next = self.with_top(cs.drop_last(), (self.cursor - 1) as nat);
        assert(forest_tokens(cs.drop_last()) =~= self.tokens.subrange(a as int, self.cursor - 1)) by {
            assert(covered.drop_last() =~= forest_tokens(cs.drop_last()));
        }
        lemma_offset_next(self.tokens, (self.cursor - 1) as nat);
        assert forall|i: int| 0 <= i < next.frames.len() implies next.frame_ok(i) by {
            assert(self.frame_ok(i));
            if i < n {
                self.lemma_outer_frames_kept(cs.drop_last(), (self.cursor - 1) as nat, i);
            } else {
                let short = cs.drop_last();
                assert(next.frames[i].children == short);
                if short.len() > 0 {
                    lemma_chained_drop_last(
                        cs,
                        offset_at(self.tokens, a),
                        offset_at(self.tokens, self.cursor),
                    );
                    assert(short[0] == cs[0]);
                } else {
                    assert(forest_tokens(short) =~= Seq::<Token>::empty());
                    assert(a == self.cursor - 1);
                }
                assert forall|j: int| 0 <= j < short.len() implies pre_wf(
                    #[trigger] short[j],
                    self.skip,
                ) by {
                    assert(short[j] == cs[j]);
                }
            }
        }
    }

    /// Taking trivia goes on as far as the tokens ahead are trivia.
    pub proof fn lemma_absorb_reaches(self, upto: nat)
        requires
            self.cursor <= upto <= self.tokens.len(),
            forall|k: int| self.cursor <= k < upto ==> self.skip.contains((#[trigger] self.tokens[k]).ty),
        ensures
            self.absorb().cursor >= upto,
            self.absorb().tokens == self.tokens,
        decreases self.tokens.len() - self.cursor,
    {
        if self.cursor < self.tokens.len() && self.skip.contains(self.tokens[self.cursor as int].ty) {
            if self.cursor < upto {
                self.bump().lemma_absorb_reaches(upto);
            } else {
                self.bump().lemma_absorb_reaches(self.cursor + 1);
            }
        } else {
            if self.cursor < upto {
                assert(self.skip.contains(self.tokens[self.cursor as int].ty));
            }
        }
    }
}

/// Whether `after` has the frames of `before` below the innermost one
/// unchanged, and the innermost with its type and start.
pub open spec fn same_spine(before: Model, after: Model) -> bool {
    &&& after.tokens == before.tokens
    &&& after.skip == before.skip
    &&& after.frames.len() == before.frames.len()
    &&& after.frames.drop_last() == before.frames.drop_last()
    &&& after.top().ty == before.top().ty
    &&& after.top().start_token == before.top().start_token
}

impl Model {
    /// Taking trivia changes only the innermost frame.
    pub proof fn lemma_absorb_spine(self)
        requires
            self.frames.len() >= 1,
        ensures
            same_spine(self, self.absorb()),
        decreases self.tokens.len() - self.cursor,
    {
        if self.cursor < self.tokens.len() && self.skip.contains(self.tokens[self.cursor as int].ty) {
            assert(self.bump().frames.drop_last() =~= self.frames.drop_last());
            self.bump().lemma_absorb_spine();
        }
    }

    /// Taking tokens changes only the innermost frame.
    pub proof fn lemma_bump_until_spine(self, tys: Seq<NodeType>)
        requires
            self.frames.len() >= 1,
        ensures
            same_spine(self, self.bump_until(tys)),
        decreases self.tokens.len() - self.cursor,
    {
        if self.cursor < self.tokens.len() && !tys.contains(self.tokens[self.cursor as int].ty) {
            assert(self.bump().frames.drop_last() =~= self.frames.drop_last());
            self.bump().lemma_bump_until_spine(tys);
        }
    }

    /// Finishing the innermost frame changes, of the frames around it, only
    /// the one right around it, and leaves that one its type and start.
    pub proof fn lemma_finish_spine(self)
        requires
            self.inner_wf(),
            self.frames.len() >= 2,
        ensures
            same_spine(Model { frames: self.frames.drop_last(), ..self }, self.finish()),
    {
        self.lemma_trim();
        let trimmed = self.trim();
        let closed = trimmed.close();
        let outer = Model { frames: trimmed.frames.drop_last(), ..trimmed };
        assert(closed.frames.drop_last() =~= outer.frames.drop_last());
        closed.lemma_absorb_spine();
    }

    /// Skipping to a token of some types changes only the innermost frame.
    pub proof fn lemma_skip_until_spine(self, tys: Seq<NodeType>)
        requires
            self.wf(),
        ensures
            same_spine(self, self.skip_until(tys)),
    {
        self.lemma_absorb_settled();
        self.lemma_start(NodeType::error());
        let opened = self.start(NodeType::error());
        opened.lemma_bump_until(tys);
        opened.lemma_bump_until_spine(tys);
        let skipped = opened.bump_until(tys);
        assert(opened.frames.drop_last() =~= self.frames);
        assert(skipped.frames.drop_last() =~= self.frames);
        if skipped.cursor > opened.cursor {
            skipped.lemma_finish_spine();
        }
    }

    /// Sweeping up the tokens that are left leaves the root its type.
    pub proof fn lemma_sweep_root(self)
        requires
            self.wf(),
            self.frames.len() == 1,
        ensures
            self.sweep().frames[0].ty == self.frames[0].ty,
            self.sweep().skip == self.skip,
    {
        if self.cursor < self.tokens.len() {
            self.lemma_start(NodeType::error());
            let opened = self.start(NodeType::error());
            opened.lemma_bump_until(Seq::empty());
            opened.lemma_bump_until_spine(Seq::empty());
            let full = opened.bump_until(Seq::empty());
            assert(opened.frames.drop_last() =~= self.frames);
            full.lemma_finish_spine();
            assert(full.frames.drop_last()[0] == self.frames[0]);
        }
    }
}

impl Model {
    /// Once the root is the one frame left and every token is taken, the
    /// root is a sound tree that holds all the tokens and reaches from the
    /// start of the text to its end.
    pub proof fn lemma_root(self)
        requires
            self.inner_wf(),
            self.frames.len() == 1,
            self.cursor == self.tokens.len(),
        ensures
            root_wf(self.root(), self.skip),
            pre_tokens(self.root()) == self.tokens,
            self.root().range == (TextRange {
                start: TextUnit(0),
                end: offset_at(self.tokens, self.tokens.len()),
            }),
            self.root().ty == self.frames[0].ty,
    {
        reveal(Model::frame_ok);
        let cs = self.frames[0].children;
        assert(self.frame_ok(0));
        assert(self.tokens.subrange(0, self.tokens.len() as int) =~= self.tokens);
        if cs.len() > 0 {
            assert forall|k: int| 0 <= k < cs.len() implies (#[trigger] cs[k]).range.wf() by {
                assert(pre_wf(cs[k], self.skip));
            }
            lemma_chain_steps(cs, 0, cs.len() - 1);
        } else {
            assert(forest_tokens(cs) =~= Seq::<Token>::empty());
        }
    }
}

/// The tokens among the first `upto` of `tokens` that the grammar sees:
/// those whose type is not in `skip`.
pub open spec fn significant(tokens: Seq<Token>, skip: Set<NodeType>, upto: nat) -> Seq<Token>
    decreases upto,
{
    if upto == 0 || upto > tokens.len() {
        Seq::empty()
    } else if skip.contains(tokens[upto - 1].ty) {
        significant(tokens, skip, (upto - 1) as nat)
    } else {
        significant(tokens, skip, (upto - 1) as nat).push(tokens[upto - 1])
    }
}

/// The tokens that the grammar sees among the first `upto` tokens are the
/// first of those that it sees among more tokens.
pub proof fn lemma_significant_prefix(tokens: Seq<Token>, skip: Set<NodeType>, upto: nat, more: nat)
    requires
        upto <= more <= tokens.len(),
    ensures
        significant(tokens, skip, upto).len() <= significant(tokens, skip, more).len(),
        significant(tokens, skip, more).take(significant(tokens, skip, upto).len() as int)
            == significant(tokens, skip, upto),
    decreases more - upto,
{
    let short = significant(tokens, skip, upto);
    if upto == more {
        assert(short.take(short.len() as int) =~= short);
    } else {
        lemma_significant_prefix(tokens, skip, upto, (more - 1) as nat);
        let before = significant(tokens, skip, (more - 1) as nat);
        let all = significant(tokens, skip, more);
        assert(all.take(short.len() as int) =~= before.take(short.len() as int));
    }
}

/// Trivia do not count: where all the tokens between two places are trivia,
/// the grammar sees as many tokens before the one place as before the other.
pub proof fn lemma_significant_skips(tokens: Seq<Token>, skip: Set<NodeType>, upto: nat, more: nat)
    requires
        upto <= more <= tokens.len(),
        forall|k: int| upto <= k < more ==> skip.contains((#[trigger] tokens[k]).ty),
    ensures
        significant(tokens, skip, more) == significant(tokens, skip, upto),
    decreases more - upto,
{
    if upto < more {
        assert(skip.contains(tokens[more - 1].ty));
        lemma_significant_skips(tokens, skip, upto, (more - 1) as nat);
    }
}

impl Model {
    /// The tokens that the grammar sees in the whole text.
    pub open spec fn seen(self) -> Seq<Token> {
        significant(self.tokens, self.skip, self.tokens.len())
    }

    /// The number of tokens that the grammar sees before the cursor.
    pub open spec fn passed(self) -> nat {
        significant(self.tokens, self.skip, self.cursor).len()
    }

    /// Where the grammar still sees a token ahead, it is the token at the
    /// cursor.
    pub proof fn lemma_next_seen(self)
        requires
            self.wf(),
            self.passed() < self.seen().len(),
        ensures
            self.cursor < self.tokens.len(),
            self.seen()[self.passed() as int] == self.tokens[self.cursor as int],
    {
        if self.cursor >= self.tokens.len() {
            assert(self.cursor == self.tokens.len());
        } else {
            lemma_significant_prefix(self.tokens, self.skip, self.cursor + 1, self.tokens.len());
            let next = significant(self.tokens, self.skip, self.cursor + 1);
            assert(next == significant(self.tokens, self.skip, self.cursor).push(
                self.tokens[self.cursor as int],
            ));
            assert(self.seen().take(next.len() as int)[self.passed() as int] == self.seen()[self.passed() as int]);
        }
    }

    /// Where the grammar sees no token ahead, none is ahead.
    pub proof fn lemma_all_seen(self)
        requires
            self.wf(),
            self.passed() >= self.seen().len(),
        ensures
            self.cursor == self.tokens.len(),
    {
        if self.cursor < self.tokens.len() {
            lemma_significant_prefix(self.tokens, self.skip, self.cursor + 1, self.tokens.len());
        }
    }

    /// Taking a token that the grammar sees, and the trivia behind it,
    /// passes one token that the grammar sees.
    pub proof fn lemma_try_eat_passes(self, ty: NodeType)
        requires
            self.wf(),
            self.at(ty),
        ensures
            self.try_eat(ty).passed() == self.passed() + 1,
            self.try_eat(ty).seen() == self.seen(),
    {
        let taken = self.bump();
        taken.lemma_absorb_only_trivia();
        lemma_significant_skips(self.tokens, self.skip, taken.cursor, taken.absorb().cursor);
    }

    /// Finishing a frame passes no token that the grammar sees: the tokens
    /// that go back and those that are taken again are trivia.
    pub proof fn lemma_finish_passes(self)
        requires
            self.inner_wf(),
            self.frames.len() >= 2,
        ensures
            self.finish().passed() == self.passed(),
            self.finish().seen() == self.seen(),
    {
        self.lemma_trim();
        let trimmed = self.trim();
        lemma_significant_skips(self.tokens, self.skip, trimmed.cursor, self.cursor);
        trimmed.lemma_close();
        let closed = trimmed.close();
        closed.lemma_absorb_only_trivia();
        lemma_significant_skips(self.tokens, self.skip, closed.cursor, closed.absorb().cursor);
    }

    /// Writing a tree of the interpreter takes every leaf of it: where the
    /// leaves of the tree are the tokens that the grammar sees ahead, one
    /// after the other, the builder passes as many of them as the tree has
    /// leaves.
    pub proof fn lemma_emit_takes(self, t: Tree)
        requires
            self.wf(),
            tree_covers(t, self.seen(), self.passed()),
        ensures
            self.emit(t).passed() == self.passed() + tree_len(t),
            self.emit(t).seen() == self.seen(),
        decreases t, 1nat,
    {
        match t {
            Tree::Leaf { ty, .. } => {
                self.lemma_next_seen();
                self.lemma_try_eat_passes(ty);
            },
            Tree::Composite { ty: Some(ty), children } => {
                self.lemma_start(ty);
                let opened = self.start(ty);
                opened.lemma_emit_all(children);
                opened.lemma_emit_all_takes(children);
                let filled = opened.emit_all(children);
                filled.lemma_finish_passes();
            },
            Tree::Composite { ty: None, children } => {
                self.lemma_emit_all_takes(children);
            },
        }
    }

    /// Writing trees of the interpreter takes every leaf of them.
    pub proof fn lemma_emit_all_takes(self, ts: Seq<Tree>)
        requires
            self.wf(),
            forest_covers(ts, self.seen(), self.passed()),
        ensures
            self.emit_all(ts).passed() == self.passed() + forest_len(ts),
            self.emit_all(ts).seen() == self.seen(),
        decreases ts, 0nat,
    {
        if ts.len() > 0 {
            self.lemma_emit_all(ts.drop_last());
            self.lemma_emit_all_takes(ts.drop_last());
            self.emit_all(ts.drop_last()).lemma_emit_takes(ts.last());
        }
    }
}

impl Model {
    /// Writes the tree `t` of the interpreter into the builder: a leaf
    /// takes the next token if it has the type of the leaf, a composite with
    /// a type becomes a node around what its children write, and an
    /// anonymous composite leaves only what its children write.
    pub open spec fn emit(self, t: Tree) -> Model
        decreases t, 1nat,
    {
        match t {
            Tree::Leaf { ty, .. } => self.try_eat(ty),
            Tree::Composite { ty: Some(ty), children } => self.start(ty).emit_all(children).finish(),
            Tree::Composite { ty: None, children } => self.emit_all(children),
        }
    }

    /// Writes the trees `ts` into the builder, one after the other.
    pub open spec fn emit_all(self, ts: Seq<Tree>) -> Model
        decreases ts, 0nat,
    {
        if ts.len() == 0 {
            self
        } else {
            self.emit_all(ts.drop_last()).emit(ts.last())
        }
    }

    /// Taking a token of a wanted type changes only the innermost frame.
    pub proof fn lemma_try_eat_spine(self, ty: NodeType)
        requires
            self.frames.len() >= 1,
        ensures
            same_spine(self, self.try_eat(ty)),
    {
        if self.at(ty) {
            assert(self.bump().frames.drop_last() =~= self.frames.drop_last());
            self.bump().lemma_absorb_spine();
        }
    }

    /// Writing a tree keeps the state sound and changes only the innermost
    /// frame.
    pub proof fn lemma_emit(self, t: Tree)
        requires
            self.wf(),
        ensures
            self.emit(t).wf(),
            same_spine(self, self.emit(t)),
        decreases t, 1nat,
    {
        match t {
            Tree::Leaf { ty, .. } => {
                self.lemma_try_eat(ty);
                self.lemma_try_eat_spine(ty);
            },
            Tree::Composite { ty: Some(ty), children } => {
                self.lemma_start(ty);
                let opened = self.start(ty);
                opened.lemma_emit_all(children);
                let filled = opened.emit_all(children);
                filled.lemma_finish();
                filled.lemma_finish_spine();
                assert(opened.frames.drop_last() =~= self.frames);
                assert(filled.frames.drop_last() =~= self.frames);
            },
            Tree::Composite { ty: None, children } => {
                self.lemma_emit_all(children);
            },
        }
    }

    /// Writing trees keeps the state sound and changes only the innermost
    /// frame.
    pub proof fn lemma_emit_all(self, ts: Seq<Tree>)
        requires
            self.wf(),
        ensures
            self.emit_all(ts).wf(),
            same_spine(self, self.emit_all(ts)),
        decreases ts, 0nat,
    {
        if ts.len() > 0 {
            self.lemma_emit_all(ts.drop_last());
            self.emit_all(ts.drop_last()).lemma_emit(ts.last());
        }
    }
}

} // verus!
