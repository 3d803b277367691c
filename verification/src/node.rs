//! The finished tree: all nodes of a file stored in one list, each with a
//! link to its parent and links to its children.
use crate::language::Language;
use crate::node_type::NodeType;
use crate::lex::Token;
use crate::pre::{
    chained, first_leaf, forest_model, forest_tokens, is_trivia, joined, last_leaf, leaf_ranges,
    lemma_forest_model, lemma_leaves_tile, lemma_no_trivia_at_the_ends, pre_tokens, pre_wf,
    ranges_tile, root_wf, Pre, PreNode,
};
use crate::text::TextUnit;
use crate::text::TextRange;
use vstd::prelude::*;
use vstd::string::StringExecFns;
use vstd::string::StringSliceAdditionalSpecFns;
use vstd::utf8::{
    decode_utf8, encode_utf8, encode_utf8_decode_utf8, encode_utf8_valid_utf8, is_char_boundary,
    is_char_boundary_iff_not_is_continuation_byte, is_char_boundary_start_end_of_seq, valid_utf8,
};

verus! {

/// The place of a node in the list of nodes of its file.
#[derive(Clone, Copy, Debug, PartialEq, Eq, Structural, Hash)]
pub struct NodeId(pub usize);

/// A node as the file stores it.
pub struct RawNode {
    pub ty: NodeType,
    /// The place of the node above, which the root alone lacks.
    pub parent: Option<NodeId>,
    /// The places of the nodes below, from left to right.
    pub children: Vec<NodeId>,
    pub range: TextRange,
}

/// Whether every node from place `lo` on has its children behind itself
/// and inside the list, and is the parent of each of them.
pub open spec fn closed_above(nodes: Seq<RawNode>, lo: int) -> bool {
    forall|j: int, k: int|
        lo <= j < nodes.len() && 0 <= k < nodes[j].children@.len() ==> {
            &&& j < (#[trigger] nodes[j].children@[k]).0 < nodes.len()
            &&& nodes[nodes[j].children@[k].0 as int].parent == Some(NodeId(j as usize))
        }
}

/// The tree below the node at place `id`.
pub open spec fn subtree(nodes: Seq<RawNode>, id: int) -> Pre
    decreases nodes.len() - id, 1nat, 0nat,
{
    Pre {
        ty: nodes[id].ty,
        range: nodes[id].range,
        children: if 0 <= id < nodes.len() {
            subtrees(nodes, nodes[id].children@, id)
        } else {
            Seq::empty()
        },
    }
}

/// The trees below the nodes at the places `ids`, which are children of
/// the node at place `parent`.
pub open spec fn subtrees(nodes: Seq<RawNode>, ids: Seq<NodeId>, parent: int) -> Seq<Pre>
    decreases nodes.len() - parent, 0nat, ids.len(),
{
    if ids.len() == 0 {
        Seq::empty()
    } else {
        subtrees(nodes, ids.drop_last(), parent).push(
            if parent < ids.last().0 < nodes.len() {
                subtree(nodes, ids.last().0 as int)
            } else {
                Pre { ty: NodeType::error(), range: TextRange::spec_default(), children: Seq::empty() }
            },
        )
    }
}


/// Whether two stored nodes have the same type, range and children.
pub open spec fn same_shape(a: RawNode, b: RawNode) -> bool {
    &&& a.ty == b.ty
    &&& a.range == b.range
    &&& a.children@ == b.children@
}

/// Whether `after` holds the nodes of `before` from place `lo` on without
/// a change of their type, range or children.
pub open spec fn keeps_above(before: Seq<RawNode>, after: Seq<RawNode>, lo: int) -> bool {
    &&& before.len() <= after.len()
    &&& forall|j: int| lo <= j < before.len() ==> same_shape(#[trigger] after[j], before[j])
}

/// The tree below a node stays what it is when nodes are added to the list
/// and nodes before it change.
pub proof fn lemma_subtree_stable(before: Seq<RawNode>, after: Seq<RawNode>, id: int)
    requires
        0 <= id < before.len(),
        closed_above(before, id),
        keeps_above(before, after, id),
    ensures
        subtree(after, id) == subtree(before, id),
    decreases before.len() - id, 1nat, 0nat,
{
    assert(same_shape(after[id], before[id]));
    let ids = before[id].children@;
    assert forall|k: int| 0 <= k < ids.len() implies id < (#[trigger] ids[k]).0 < before.len() by {
        assert(id < before[id].children@[k].0 < before.len());
    }
    lemma_subtrees_stable(before, after, ids, id);
}

/// The trees below the children of a node stay what they are when nodes
/// are added to the list and nodes up to the parent change.
pub proof fn lemma_subtrees_stable(
    before: Seq<RawNode>,
    after: Seq<RawNode>,
    ids: Seq<NodeId>,
    parent: int,
)
    requires
        0 <= parent < before.len(),
        closed_above(before, parent + 1),
        keeps_above(before, after, parent + 1),
        forall|k: int| 0 <= k < ids.len() ==> parent < (#[trigger] ids[k]).0 < before.len(),
    ensures
        subtrees(after, ids, parent) == subtrees(before, ids, parent),
    decreases before.len() - parent, 0nat, ids.len(),
{
    if ids.len() > 0 {
        let short = ids.drop_last();
        assert forall|k: int| 0 <= k < short.len() implies parent < (#[trigger] short[k]).0
            < before.len() by {
            assert(short[k] == ids[k]);
        }
        lemma_subtrees_stable(before, after, short, parent);
        let last = ids.last().0 as int;
        assert(parent < ids[ids.len() - 1].0 < before.len());
        lemma_subtree_stable(before, after, last);
    }
}

/// The trees below some children are as many as the children, and each is
/// the tree below the child at its place.
pub proof fn lemma_subtrees(nodes: Seq<RawNode>, ids: Seq<NodeId>, parent: int)
    requires
        forall|k: int| 0 <= k < ids.len() ==> parent < (#[trigger] ids[k]).0 < nodes.len(),
    ensures
        subtrees(nodes, ids, parent).len() == ids.len(),
        forall|k: int|
            0 <= k < ids.len() ==> subtrees(nodes, ids, parent)[k] == subtree(
                nodes,
                (#[trigger] ids[k]).0 as int,
            ),
    decreases ids.len(),
{
    if ids.len() > 0 {
        let short = ids.drop_last();
        assert forall|k: int| 0 <= k < short.len() implies parent < (#[trigger] short[k]).0
            < nodes.len() by {
            assert(short[k] == ids[k]);
        }
        lemma_subtrees(nodes, short, parent);
        assert forall|k: int| 0 <= k < ids.len() implies subtrees(nodes, ids, parent)[k] == subtree(
            nodes,
            (#[trigger] ids[k]).0 as int,
        ) by {
            if k < ids.len() - 1 {
                assert(short[k] == ids[k]);
            }
        }
    }
}

/// Whether `range` lies in a text with the bytes `bytes` and neither
/// starts nor ends inside a character.
pub open spec fn range_in_text(range: TextRange, bytes: Seq<u8>) -> bool {
    &&& range.start.0 <= range.end.0 <= bytes.len()
    &&& is_char_boundary(bytes, range.start.0 as int)
    &&& is_char_boundary(bytes, range.end.0 as int)
}

/// Whether the range of every node of `p` lies in a text with the bytes
/// `bytes` and neither starts nor ends inside a character.
pub open spec fn on_boundaries(p: Pre, bytes: Seq<u8>) -> bool
    decreases p,
{
    &&& range_in_text(p.range, bytes)
    &&& forall|i: int| 0 <= i < p.children.len() ==> on_boundaries(#[trigger] p.children[i], bytes)
}

/// Whether the range of every node of `nodes` lies in a text with the
/// bytes `bytes` and neither starts nor ends inside a character.
pub open spec fn ranges_in_text(nodes: Seq<RawNode>, bytes: Seq<u8>) -> bool {
    forall|j: int| 0 <= j < nodes.len() ==> range_in_text((#[trigger] nodes[j]).range, bytes)
}

/// The types of the tokens that the grammar does not see: white space.
pub open spec fn trivia_types() -> Set<NodeType> {
    set![NodeType::whitespace()]
}

/// Whether every token of `tokens` lies in a text with the bytes `bytes`
/// and neither starts nor ends inside a character.
pub open spec fn tokens_in_text(tokens: Seq<Token>, bytes: Seq<u8>) -> bool {
    forall|i: int| 0 <= i < tokens.len() ==> range_in_text((#[trigger] tokens[i]).range, bytes)
}

/// Where the tokens of a sound tree lie between characters and the tree
/// starts between characters, every node of the tree lies between
/// characters.
pub proof fn lemma_on_boundaries(p: Pre, skip: Set<NodeType>, bytes: Seq<u8>)
    requires
        pre_wf(p, skip),
        tokens_in_text(pre_tokens(p), bytes),
        is_char_boundary(bytes, p.range.start.0 as int),
        p.range.start.0 <= bytes.len(),
    ensures
        on_boundaries(p, bytes),
    decreases p, 1nat,
{
    if p.children.len() == 0 {
        if p.range.start.0 < p.range.end.0 {
            assert(pre_tokens(p)[0].range == p.range);
        }
    } else {
        lemma_forest_on_boundaries(p.children, skip, bytes, p.range.start, p.range.end);
    }
}

/// Where the tokens of a chain of sound trees lie between characters and
/// the chain starts between characters, every node of the chain lies
/// between characters, and so does the end of the chain.
#[verifier::rlimit(30)]
pub proof fn lemma_forest_on_boundaries(
    ps: Seq<Pre>,
    skip: Set<NodeType>,
    bytes: Seq<u8>,
    from: TextUnit,
    to: TextUnit,
)
    requires
        ps.len() > 0,
        chained(ps, from, to),
        forall|i: int| 0 <= i < ps.len() ==> pre_wf(#[trigger] ps[i], skip),
        tokens_in_text(forest_tokens(ps), bytes),
        is_char_boundary(bytes, from.0 as int),
        from.0 <= bytes.len(),
    ensures
        forall|i: int| 0 <= i < ps.len() ==> on_boundaries(#[trigger] ps[i], bytes),
        range_in_text(TextRange { start: from, end: to }, bytes),
    decreases ps, 0nat,
{
    let last = ps.last();
    let before = ps.drop_last();
    let head = forest_tokens(before);
    let tail = pre_tokens(last);
    assert(forest_tokens(ps) == head + tail);
    assert(tokens_in_text(head, bytes)) by {
        assert forall|i: int| 0 <= i < head.len() implies range_in_text(
            (#[trigger] head[i]).range,
            bytes,
        ) by {
            assert((head + tail)[i] == head[i]);
        }
    }
    assert(tokens_in_text(tail, bytes)) by {
        assert forall|i: int| 0 <= i < tail.len() implies range_in_text(
            (#[trigger] tail[i]).range,
            bytes,
        ) by {
            assert((head + tail)[head.len() + i] == tail[i]);
        }
    }
    assert(pre_wf(last, skip));
    if before.len() == 0 {
        lemma_on_boundaries(last, skip, bytes);
    } else {
        assert(before.last() == ps[ps.len() - 2]);
        assert(before[0] == ps[0]);
        assert forall|i: int| 0 <= i < before.len() implies pre_wf(#[trigger] before[i], skip) by {
            assert(before[i] == ps[i]);
        }
        assert forall|i: int| 0 <= i < before.len() - 1 implies #[trigger] joined(before, i) by {
            assert(joined(ps, i));
            assert(before[i] == ps[i]);
            assert(before[i + 1] == ps[i + 1]);
        }
        assert(joined(ps, ps.len() - 2));
        lemma_forest_on_boundaries(before, skip, bytes, from, last.range.start);
        lemma_on_boundaries(last, skip, bytes);
        assert forall|i: int| 0 <= i < ps.len() implies on_boundaries(#[trigger] ps[i], bytes) by {
            if i < before.len() {
                assert(ps[i] == before[i]);
            }
        }
    }
}

/// Collects the nodes of a file.
pub struct FileBuilder {
    lang: Language,
    text: String,
    nodes: Vec<RawNode>,
}

/// The handle of a node that was added to a `FileBuilder`.
#[derive(Clone, Copy, Debug)]
pub struct NodeBuilder(pub NodeId);

impl FileBuilder {
    /// The nodes that were added, in the order in which they were added.
    pub closed spec fn nodes(&self) -> Seq<RawNode> {
        self.nodes@
    }

    /// The text of the file.
    pub closed spec fn text(&self) -> Seq<char> {
        self.text@
    }

    /// The nodes are sound when each has its children behind itself and is
    /// their parent, and each but the first has its parent before itself.
    pub closed spec fn wf(&self) -> bool {
        &&& arena_wf(self.nodes@)
        &&& self.lang.wf()
    }

    /// Sound nodes form a tree.
    pub proof fn lemma_wf(&self)
        requires
            self.wf(),
        ensures
            arena_wf(self.nodes()),
    {
    }

    /// The names of the node types of the file.
    pub closed spec fn names(&self) -> Map<NodeType, Seq<char>> {
        self.lang@
    }

    /// A builder for the file of language `lang` with the text `text`,
    /// without nodes.
    pub fn new(lang: Language, text: String) -> (r: FileBuilder)
        requires
            lang.wf(),
        ensures
            r.nodes() == Seq::<RawNode>::empty(),
            r.text() == text@,
            r.names() == lang@,
            r.wf(),
    {
        proof {
            reveal(children_listed);
        }
        FileBuilder { lang, text, nodes: Vec::new() }
    }

    /// Adds a node without children as the last child of `parent`. The
    /// first node has no parent and is the root; every other has one.
    pub fn node(&mut self, parent: Option<NodeBuilder>, ty: NodeType, range: TextRange) -> (r:
        NodeBuilder)
        requires
            old(self).wf(),
            parent is None <==> old(self).nodes().len() == 0,
            parent matches Some(p) ==> p.0.0 < old(self).nodes().len(),
        ensures
            final(self).wf(),
            final(self).text() == old(self).text(),
            final(self).names() == old(self).names(),
            r.0.0 == old(self).nodes().len(),
            final(self).nodes().len() == old(self).nodes().len() + 1,
            final(self).nodes()[r.0.0 as int].ty == ty,
            final(self).nodes()[r.0.0 as int].range == range,
            final(self).nodes()[r.0.0 as int].children@ == Seq::<NodeId>::empty(),
            final(self).nodes()[r.0.0 as int].parent == (match parent {
                Some(p) => Some(p.0),
                None => None,
            }),
            forall|j: int|
                0 <= j < old(self).nodes().len() && parent != Some(NodeBuilder(NodeId(j as usize)))
                    ==> final(self).nodes()[j] == old(self).nodes()[j],
            parent matches Some(p) ==> {
                let was = old(self).nodes()[p.0.0 as int];
                let is = final(self).nodes()[p.0.0 as int];
                &&& is.ty == was.ty
                &&& is.range == was.range
                &&& is.parent == was.parent
                &&& is.children@ == was.children@.push(r.0)
            },
    {
        let id = NodeId(self.nodes.len());
        let parent_id = match parent {
            Some(p) => Some(p.0),
            None => None,
        };
        self.nodes.push(RawNode { ty, parent: parent_id, children: Vec::new(), range });
        match parent {
            Some(p) => {
                self.nodes[p.0.0].children.push(id);
            },
            None => {},
        }
        proof {
            let before = old(self).nodes@;
            let after = self.nodes@;
            assert forall|j: int, k: int|
                0 <= j < after.len() && 0 <= k < after[j].children@.len() implies {
                &&& j < (#[trigger] after[j].children@[k]).0 < after.len()
                &&& after[after[j].children@[k].0 as int].parent == Some(NodeId(j as usize))
            } by {
                if j < before.len() {
                    if parent == Some(NodeBuilder(NodeId(j as usize))) && k == before[j].children@.len() {
                    } else {
                        assert(before[j].children@[k] == after[j].children@[k]);
                        assert(j < before[j].children@[k].0 < before.len());
                    }
                }
            }
            assert forall|j: int| 1 <= j < after.len() implies ((#[trigger] after[j]).parent matches Some(
                q,
            ) && q.0 < j) by {
                if j < before.len() {
                    assert(before[j].parent == after[j].parent);
                }
            }
            reveal(children_listed);
            assert forall|j: int| 1 <= j < after.len() implies ((#[trigger] after[j]).parent matches Some(
                q,
            ) && q.0 < j && after[q.0 as int].children@.contains(NodeId(j as usize))) by {
                if j < before.len() {
                    assert(before[j].parent == after[j].parent);
                    let q = before[j].parent->0;
                    let at = choose|k: int|
                        0 <= k < before[q.0 as int].children@.len() && before[q.0 as int].children@[k]
                            == NodeId(j as usize);
                    assert(after[q.0 as int].children@[at] == NodeId(j as usize));
                } else {
                    let q = after[j].parent->0;
                    let last = after[q.0 as int].children@.len() - 1;
                    assert(after[q.0 as int].children@[last] == NodeId(j as usize));
                }
            }
        }
        NodeBuilder(id)
    }
}

impl FileBuilder {
    /// Adds `node` with everything below it as the last child of `parent`.
    #[verifier::rlimit(30)]
    pub fn tree(&mut self, parent: Option<NodeBuilder>, node: &PreNode) -> (r: NodeBuilder)
        requires
            old(self).wf(),
            parent is None <==> old(self).nodes().len() == 0,
            parent matches Some(p) ==> p.0.0 < old(self).nodes().len(),
        ensures
            final(self).wf(),
            final(self).text() == old(self).text(),
            final(self).names() == old(self).names(),
            r.0.0 == old(self).nodes().len(),
            final(self).nodes().len() > old(self).nodes().len(),
            subtree(final(self).nodes(), r.0.0 as int) == node.model(),
            final(self).nodes()[r.0.0 as int].parent == (match parent {
                Some(p) => Some(p.0),
                None => None,
            }),
            forall|j: int|
                0 <= j < old(self).nodes().len() && parent != Some(NodeBuilder(NodeId(j as usize)))
                    ==> final(self).nodes()[j] == old(self).nodes()[j],
            parent matches Some(p) ==> {
                let was = old(self).nodes()[p.0.0 as int];
                let is = final(self).nodes()[p.0.0 as int];
                &&& is.ty == was.ty
                &&& is.range == was.range
                &&& is.parent == was.parent
                &&& is.children@ == was.children@.push(r.0)
            },
            forall|bytes: Seq<u8>|
                ranges_in_text(old(self).nodes(), bytes) && on_boundaries(node.model(), bytes)
                    ==> #[trigger] ranges_in_text(final(self).nodes(), bytes),
        decreases node,
    {
        let id = self.node(parent, node.ty, node.range);
        let ghost me = id.0.0 as int;
        let ghost first = self.nodes();
        let mut i: usize = 0;
        proof {
            lemma_forest_model(node.children@);
            assert(node.children@.take(0) =~= Seq::<PreNode>::empty());
            assert forall|bytes: Seq<u8>|
                ranges_in_text(old(self).nodes(), bytes) && on_boundaries(
                    node.model(),
                    bytes,
                ) implies #[trigger] ranges_in_text(self.nodes(), bytes) by {
                assert forall|j: int| 0 <= j < self.nodes().len() implies range_in_text(
                    (#[trigger] self.nodes()[j]).range,
                    bytes,
                ) by {
                    if j < old(self).nodes().len() {
                        assert(range_in_text(old(self).nodes()[j].range, bytes));
                    }
                }
            }
        }
        while i < node.children.len()
            invariant
                self.wf(),
                self.text() == old(self).text(),
                self.names() == old(self).names(),
                i <= node.children@.len(),
                me == id.0.0,
                me == old(self).nodes().len(),
                me < self.nodes().len(),
                self.nodes()[me].ty == node.ty,
                self.nodes()[me].range == node.range,
                self.nodes()[me].children@.len() == i,
                self.nodes()[me].parent == (match parent {
                    Some(p) => Some(p.0),
                    None => None,
                }),
                parent matches Some(p) ==> p.0.0 < me,
                subtrees(self.nodes(), self.nodes()[me].children@, me) == forest_model(
                    node.children@.take(i as int),
                ),
                forall|j: int|
                    0 <= j < me && parent != Some(NodeBuilder(NodeId(j as usize)))
                        ==> self.nodes()[j] == old(self).nodes()[j],
                parent matches Some(p) ==> {
                    let was = old(self).nodes()[p.0.0 as int];
                    let is = self.nodes()[p.0.0 as int];
                    &&& is.ty == was.ty
                    &&& is.range == was.range
                    &&& is.parent == was.parent
                    &&& is.children@ == was.children@.push(id.0)
                },
                forall|bytes: Seq<u8>|
                    ranges_in_text(old(self).nodes(), bytes) && on_boundaries(node.model(), bytes)
                        ==> #[trigger] ranges_in_text(self.nodes(), bytes),
            decreases node.children.len() - i,
        {
            let ghost before = self.nodes();
            let ghost ids = before[me].children@;
            proof {
                self.lemma_wf();
            }
            let child = self.tree(Some(id), &node.children[i]);
            proof {
                self.lemma_wf();
                let after = self.nodes();
                assert forall|k: int| 0 <= k < ids.len() implies me < (#[trigger] ids[k]).0
                    < before.len() by {
                    assert(me < before[me].children@[k].0 < before.len());
                }
                assert(keeps_above(before, after, me + 1)) by {
                    assert forall|j: int| me + 1 <= j < before.len() implies same_shape(
                        #[trigger] after[j],
                        before[j],
                    ) by {
                        assert(after[j] == before[j]);
                    }
                }
                lemma_subtrees_stable(before, after, ids, me);
                assert(after[me].children@.drop_last() =~= ids);
                assert(node.children@.take(i + 1).drop_last() =~= node.children@.take(i as int));
                assert(node.children@.take(i + 1).last() == node.children@[i as int]);
                assert forall|bytes: Seq<u8>|
                    ranges_in_text(old(self).nodes(), bytes) && on_boundaries(
                        node.model(),
                        bytes,
                    ) implies #[trigger] ranges_in_text(after, bytes) by {
                    assert(ranges_in_text(before, bytes));
                    lemma_forest_model(node.children@);
                    assert(node.model().children[i as int] == node.children@[i as int].model());
                    assert(on_boundaries(node.model().children[i as int], bytes));
                }
            }
            i += 1;
        }
        proof {
            assert(node.children@.take(i as int) =~= node.children@);
        }
        id
    }

    /// The file that holds the nodes. The node added first is its root.
    pub fn build(self) -> (r: File)
        requires
            self.wf(),
            self.nodes().len() > 0,
        ensures
            r.wf(),
            r.nodes() == self.nodes(),
            r.source() == self.text(),
            r.names() == self.names(),
    {
        File { lang: self.lang, text: self.text, root: NodeId(0), nodes: self.nodes }
    }
}

/// The tree of a text: its nodes in one list, the root first, and the text
/// itself.
pub struct File {
    lang: Language,
    text: String,
    root: NodeId,
    nodes: Vec<RawNode>,
}

impl View for File {
    type V = Pre;

    /// The tree below the root.
    closed spec fn view(&self) -> Pre {
        subtree(self.nodes@, self.root.0 as int)
    }
}

impl File {
    /// The nodes of the file, the root first.
    pub closed spec fn nodes(&self) -> Seq<RawNode> {
        self.nodes@
    }

    /// The text of the file.
    pub closed spec fn source(&self) -> Seq<char> {
        self.text@
    }

    /// The names of the node types of the file.
    pub closed spec fn names(&self) -> Map<NodeType, Seq<char>> {
        self.lang@
    }

    /// The file is sound when it has a root, which is its first node, and
    /// its nodes form a tree.
    pub closed spec fn wf(&self) -> bool {
        &&& self.nodes@.len() > 0
        &&& self.root == NodeId(0)
        &&& arena_wf(self.nodes@)
        &&& self.lang.wf()
    }

    /// Whether the tree of the file is the tree of its whole text: the root
    /// reaches from the first byte to the last, below it every node is
    /// filled by its children without a gap, only the root starts or ends
    /// with trivia, and no node starts or ends inside a character.
    pub open spec fn covers_text(&self) -> bool {
        let bytes = encode_utf8(self.source());
        &&& root_wf(self@, trivia_types())
        &&& bytes.len() <= u32::MAX
        &&& self@.range == (TextRange { start: TextUnit(0), end: TextUnit(bytes.len() as u32) })
        &&& ranges_in_text(self.nodes(), bytes)
    }

    /// A sound file has a root and the tree below it is the tree of the
    /// file.
    pub proof fn lemma_wf(&self)
        requires
            self.wf(),
        ensures
            self.nodes().len() > 0,
            arena_wf(self.nodes()),
            self@ == subtree(self.nodes(), 0),
    {
    }

    /// The language of the file.
    pub fn language(&self) -> (r: &Language)
        requires
            self.wf(),
        ensures
            r@ == self.names(),
            r.wf(),
    {
        &self.lang
    }

    /// The root of the tree.
    pub fn root(&self) -> (r: Node<'_>)
        requires
            self.wf(),
        ensures
            r.wf(),
            r.file() == self,
            r.id() == 0,
            r@ == self@,
    {
        self.node(self.root)
    }

    /// The text of the file.
    pub fn text(&self) -> (r: &str)
        ensures
            r@ == self.source(),
    {
        self.text.as_str()
    }

    /// The node at place `id`.
    fn node(&self, id: NodeId) -> (r: Node<'_>)
        requires
            self.wf(),
            id.0 < self.nodes@.len(),
        ensures
            r.wf(),
            r.file() == self,
            r.id() == id.0,
    {
        Node { id, file: self }
    }
}

/// A node of a file.
#[derive(Clone, Copy)]
pub struct Node<'f> {
    id: NodeId,
    file: &'f File,
}

impl<'f> View for Node<'f> {
    type V = Pre;

    /// The tree below the node.
    closed spec fn view(&self) -> Pre {
        subtree(self.file.nodes@, self.id.0 as int)
    }
}

impl<'f> Node<'f> {
    /// The file of the node.
    pub closed spec fn file(&self) -> &'f File {
        self.file
    }

    /// The place of the node among the nodes of its file.
    pub closed spec fn id(&self) -> int {
        self.id.0 as int
    }

    /// A node is sound when its file is sound and holds it.
    pub closed spec fn wf(&self) -> bool {
        &&& self.file.wf()
        &&& self.id.0 < self.file.nodes@.len()
    }

    /// A sound node is one of the nodes of its file, and its tree is the
    /// tree below it.
    pub proof fn lemma_wf(&self)
        requires
            self.wf(),
        ensures
            self.file().wf(),
            0 <= self.id() < self.file().nodes().len(),
            self@ == subtree(self.file().nodes(), self.id()),
    {
    }

    /// The node as the file stores it.
    fn raw(&self) -> (r: &RawNode)
        requires
            self.wf(),
        ensures
            *r == self.file.nodes@[self.id.0 as int],
    {
        &self.file.nodes[self.id.0]
    }

    /// The type of the node.
    pub fn ty(&self) -> (r: NodeType)
        requires
            self.wf(),
        ensures
            r == self@.ty,
    {
        self.raw().ty
    }

    /// The range of text that the node covers.
    pub fn range(&self) -> (r: TextRange)
        requires
            self.wf(),
        ensures
            r == self@.range,
    {
        self.raw().range
    }

    /// Whether the node has no children.
    pub fn is_leaf(&self) -> (r: bool)
        requires
            self.wf(),
        ensures
            r == (self@.children.len() == 0),
    {
        proof {
            self.lemma_children();
        }
        self.raw().children.len() == 0
    }

    /// The children of a sound node are as many as the places that it
    /// stores, each lies behind the node and has it as its parent, and the
    /// tree below each is the child of the tree below the node.
    pub proof fn lemma_children(&self)
        requires
            self.wf(),
        ensures
            self@.children.len() == self.file().nodes()[self.id()].children@.len(),
            forall|k: int|
                0 <= k < self@.children.len() ==> {
                    let c = (#[trigger] self.file().nodes()[self.id()].children@[k]).0 as int;
                    &&& self.id() < c < self.file().nodes().len()
                    &&& self@.children[k] == subtree(self.file().nodes(), c)
                    &&& self.file().nodes()[c].parent == Some(NodeId(self.id() as usize))
                },
    {
        let nodes = self.file.nodes@;
        let me = self.id.0 as int;
        let ids = nodes[me].children@;
        assert forall|k: int| 0 <= k < ids.len() implies me < (#[trigger] ids[k]).0 < nodes.len() by {
            assert(me < nodes[me].children@[k].0 < nodes.len());
        }
        lemma_subtrees(nodes, ids, me);
    }

    /// The node above this one. The root has none.
    pub fn parent(&self) -> (r: Option<Node<'f>>)
        requires
            self.wf(),
        ensures
            r is None <==> self.id() == 0,
            r matches Some(p) ==> {
                &&& p.wf()
                &&& p.file() == self.file()
                &&& p.id() < self.id()
                &&& self.file().nodes()[self.id()].parent == Some(NodeId(p.id() as usize))
                &&& p@.children.contains(self@)
            },
    {
        match self.raw().parent {
            Some(id) => {
                assert(self.id.0 >= 1);
                proof {
                    reveal(children_listed);
                    let p = Node { id, file: self.file };
                    p.lemma_children();
                    let at = choose|k: int|
                        0 <= k < self.file.nodes@[id.0 as int].children@.len()
                            && self.file.nodes@[id.0 as int].children@[k] == self.id;
                    assert(self.file.nodes@[self.id.0 as int].parent matches Some(q) && q.0
                        < self.id.0 && self.file.nodes@[q.0 as int].children@.contains(self.id));
                    assert(self.file.nodes@[id.0 as int].children@[at].0 == self.id.0);
                    assert(p@.children[at] == self@);
                }
                assert(self.file.nodes@[self.id.0 as int].parent matches Some(q) && q.0 < self.id.0);
                Some(Node { id, file: self.file })
            },
            None => None,
        }
    }

    /// The children of the node, from left to right.
    pub fn children(&self) -> (r: NodeChildren<'f>)
        requires
            self.wf(),
        ensures
            r.wf(),
            r.node() == *self,
            r.pos() == 0,
    {
        NodeChildren { node: *self, pos: 0 }
    }
}

/// Walks over the children of a node.
pub struct NodeChildren<'f> {
    node: Node<'f>,
    pos: usize,
}

impl<'f> NodeChildren<'f> {
    /// The node whose children these are.
    pub closed spec fn node(&self) -> Node<'f> {
        self.node
    }

    /// The number of children that were handed out.
    pub closed spec fn pos(&self) -> int {
        self.pos as int
    }

    /// The walk is sound when its node is.
    pub closed spec fn wf(&self) -> bool {
        self.node.wf()
    }

    /// The next child, if there is one left.
    pub fn next(&mut self) -> (r: Option<Node<'f>>)
        requires
            old(self).wf(),
        ensures
            final(self).wf(),
            final(self).node() == old(self).node(),
            match r {
                Some(child) => {
                    &&& old(self).pos() < old(self).node()@.children.len()
                    &&& final(self).pos() == old(self).pos() + 1
                    &&& child.wf()
                    &&& child.file() == old(self).node().file()
                    &&& child@ == old(self).node()@.children[old(self).pos()]
                    &&& child.id() > old(self).node().id()
                },
                None => {
                    &&& old(self).pos() >= old(self).node()@.children.len()
                    &&& final(self).pos() == old(self).pos()
                },
            },
    {
        proof {
            self.node.lemma_children();
        }
        let raw = self.node.raw();
        if self.pos < raw.children.len() {
            let id = raw.children[self.pos];
            self.pos = self.pos + 1;
            Some(Node { id, file: self.node.file })
        } else {
            None
        }
    }
}

/// Whether `nodes` are the nodes of a tree: each has its children behind
/// itself and is their parent, the first has no parent, and every other
/// has its parent before itself and is one of the children of its parent.
pub open spec fn arena_wf(nodes: Seq<RawNode>) -> bool {
    &&& closed_above(nodes, 0)
    &&& nodes.len() > 0 ==> nodes[0].parent is None
    &&& forall|j: int|
        1 <= j < nodes.len() ==> ((#[trigger] nodes[j]).parent matches Some(q) && q.0 < j)
    &&& children_listed(nodes)
}

/// Whether every node but the first is one of the children of its parent.
#[verifier::opaque]
pub open spec fn children_listed(nodes: Seq<RawNode>) -> bool {
    forall|j: int|
        1 <= j < nodes.len() ==> ((#[trigger] nodes[j]).parent matches Some(q) && q.0 < j
            && nodes[q.0 as int].children@.contains(NodeId(j as usize)))
}


/// `s` as a string literal, between double quotes and with the escapes
/// that `Debug` writes for a `str`.
pub uninterp spec fn debug_quoted(s: Seq<char>) -> Seq<char>;

/// Formats `s` with `{:?}`, the `Debug` form of a `str`. The result
/// depends on `s` alone.
#[verifier::external_body]
fn quote(s: &str) -> (r: String)
    ensures
        r@ == debug_quoted(s@),
{
    format!("{:?}", s)
}

/// The part of `text` that `range` covers.
pub open spec fn slice_of(text: Seq<char>, range: TextRange) -> Seq<char> {
    decode_utf8(encode_utf8(text).subrange(range.start.0 as int, range.end.0 as int))
}

/// The part of `text` that `range` covers.
pub fn slice<'a>(text: &'a str, range: TextRange) -> (r: &'a str)
    requires
        range_in_text(range, text.spec_bytes()),
    ensures
        r@ == slice_of(text@, range),
        r.spec_bytes() == text.spec_bytes().subrange(range.start.0 as int, range.end.0 as int),
{
    let start = range.start.0 as usize;
    let end = range.end.0 as usize;
    let ghost bytes = text.spec_bytes();
    proof {
        broadcast use encode_utf8_valid_utf8;

        assert(valid_utf8(bytes));
    }
    let (head, _) = text.split_at(end);
    proof {
        broadcast use encode_utf8_valid_utf8;

        assert(valid_utf8(head.spec_bytes()));
        if start == end {
            is_char_boundary_start_end_of_seq(head.spec_bytes());
        } else {
            is_char_boundary_iff_not_is_continuation_byte(bytes, start as int);
            is_char_boundary_iff_not_is_continuation_byte(head.spec_bytes(), start as int);
        }
    }
    let (_, r) = head.split_at(start);
    proof {
        broadcast use encode_utf8_decode_utf8;

        assert(r.spec_bytes() =~= bytes.subrange(start as int, end as int));
        assert(decode_utf8(encode_utf8(r@)) == r@);
    }
    r
}

/// As many pairs of blanks as `level` says.
pub open spec fn indent(level: nat) -> Seq<char>
    decreases level,
{
    if level == 0 {
        Seq::empty()
    } else {
        indent((level - 1) as nat) + "  "@
    }
}

/// The tree `p` written out, one node to a line: a node without children
/// as its type's name and its text in quotes, a node with children as its
/// type's name, with the children on the lines below, two blanks further
/// in.
pub open spec fn dump_tree(p: Pre, names: Map<NodeType, Seq<char>>, text: Seq<char>, level: nat) -> Seq<
    char,
>
    decreases p, 1nat,
{
    if p.children.len() == 0 {
        indent(level) + names[p.ty] + " "@ + debug_quoted(slice_of(text, p.range)) + "\n"@
    } else {
        indent(level) + names[p.ty] + "\n"@ + dump_forest(p.children, names, text, level + 1)
    }
}

/// The trees `ps` written out one below the other.
pub open spec fn dump_forest(
    ps: Seq<Pre>,
    names: Map<NodeType, Seq<char>>,
    text: Seq<char>,
    level: nat,
) -> Seq<char>
    decreases ps, 0nat,
{
    if ps.len() == 0 {
        Seq::empty()
    } else {
        dump_forest(ps.drop_last(), names, text, level) + dump_tree(ps.last(), names, text, level)
    }
}

impl File {
    /// Whether the language of the file has a name for the type of every
    /// node.
    pub open spec fn types_named(&self) -> bool {
        forall|j: int|
            0 <= j < self.nodes().len() ==> self.names().dom().contains((#[trigger] self.nodes()[j]).ty)
    }

    /// Whether the language of the file has a name for the type of every
    /// node.
    pub fn has_types_named(&self) -> (r: bool)
        requires
            self.wf(),
        ensures
            r == self.types_named(),
    {
        let mut j: usize = 0;
        while j < self.nodes.len()
            invariant
                self.wf(),
                j <= self.nodes@.len(),
                forall|k: int| 0 <= k < j ==> self.names().dom().contains((#[trigger] self.nodes()[k]).ty),
            decreases self.nodes.len() - j,
        {
            if !self.lang.knows(self.nodes[j].ty) {
                assert(!self.names().dom().contains(self.nodes()[j as int].ty));
                return false;
            }
            j += 1;
        }
        true
    }

    /// Writes the tree out, one node to a line and each level two blanks
    /// further in than the one above it.
    pub fn dump(&self) -> (r: String)
        requires
            self.wf(),
            self.covers_text(),
            self.types_named(),
        ensures
            r@ == dump_tree(self@, self.names(), self.source(), 0),
    {
        let mut buf = String::new();
        self.root().dump_into(0, &mut buf);
        buf
    }

    /// The lowest node whose range holds all of `range`: from the root
    /// down, at each node the first child that holds `range` is taken, as
    /// long as there is one.
    #[verifier::rlimit(30)]
    pub fn node_containing_range(&self, range: TextRange) -> (r: Node<'_>)
        requires
            self.wf(),
        ensures
            r.wf(),
            r.file() == self,
            r@ == deepest(self@, range),
            r.id() == deepest_place(self.nodes(), 0, range),
    {
        let mut node = self.root();
        loop
            invariant
                self.wf(),
                node.wf(),
                node.file == self,
                deepest(self@, range) == deepest(node@, range),
                deepest_place(self.nodes@, 0, range) == deepest_place(
                    self.nodes@,
                    node.id.0 as int,
                    range,
                ),
            decreases self.nodes@.len() - node.id.0,
        {
            proof {
                node.lemma_children();
            }
            let raw = node.raw();
            let mut k: usize = 0;
            let mut found: Option<NodeId> = None;
            while k < raw.children.len() && found.is_none()
                invariant
                    self.wf(),
                    node.wf(),
                    node.file == self,
                    *raw == self.nodes@[node.id.0 as int],
                    k <= raw.children@.len(),
                    node@.children.len() == raw.children@.len(),
                    forall|i: int|
                        0 <= i < node@.children.len() ==> {
                            let c = (#[trigger] self.nodes@[node.id.0 as int].children@[i]).0 as int;
                            &&& node.id.0 < c < self.nodes@.len()
                            &&& node@.children[i] == subtree(self.nodes@, c)
                        },
                    match found {
                        Some(c) => {
                            &&& first_holding(node@.children, range, 0) matches Some(i)
                            &&& 0 <= i < node@.children.len()
                            &&& node@.children[i] == subtree(self.nodes@, c.0 as int)
                            &&& node.id.0 < c.0 < self.nodes@.len()
                            &&& first_place_holding(self.nodes@, raw.children@, range, 0) == Some(
                                c.0 as int,
                            )
                        },
                        None => {
                            &&& first_holding(node@.children, range, 0) == first_holding(
                                node@.children,
                                range,
                                k as int,
                            )
                            &&& first_place_holding(self.nodes@, raw.children@, range, 0)
                                == first_place_holding(self.nodes@, raw.children@, range, k as int)
                        },
                    },
                decreases raw.children.len() - k,
            {
                let c = raw.children[k];
                assert(node.id.0 < self.nodes@[node.id.0 as int].children@[k as int].0 < self.nodes@.len());
                if range.is_subrange_of(self.nodes[c.0].range) {
                    found = Some(c);
                }
                k += 1;
            }
            match found {
                Some(c) => {
                    node = Node { id: c, file: self };
                },
                None => {
                    return node;
                },
            }
        }
    }
}

/// Every node but the first is a child of a node before it: its tree is
/// one of the children of the tree of that node.
pub proof fn lemma_parent_holds(nodes: Seq<RawNode>, id: int) -> (r: (int, int))
    requires
        arena_wf(nodes),
        0 < id < nodes.len() <= usize::MAX,
    ensures
        0 <= r.0 < id,
        0 <= r.1 < subtree(nodes, r.0).children.len(),
        subtree(nodes, r.0).children[r.1] == subtree(nodes, id),
{
    reveal(children_listed);
    let above: NodeId = nodes[id].parent->0;
    let q = above.0 as int;
    assert(nodes[id].parent matches Some(x) && x.0 < id && nodes[x.0 as int].children@.contains(
        NodeId(id as usize),
    ));
    let ids = nodes[q].children@;
    let at = choose|k: int| 0 <= k < ids.len() && ids[k] == NodeId(id as usize);
    assert forall|k: int| 0 <= k < ids.len() implies q < (#[trigger] ids[k]).0 < nodes.len() by {
        assert(q < nodes[q].children@[k].0 < nodes.len());
    }
    lemma_subtrees(nodes, ids, q);
    (q, at)
}

/// Every node of a tree with a sound root is sound: below the root each
/// node is filled by its children without a gap and neither starts nor
/// ends with trivia.
pub proof fn lemma_nodes_sound(nodes: Seq<RawNode>, id: int, skip: Set<NodeType>)
    requires
        arena_wf(nodes),
        0 < id < nodes.len() <= usize::MAX,
        root_wf(subtree(nodes, 0), skip),
    ensures
        pre_wf(subtree(nodes, id), skip),
    decreases id,
{
    let (q, at) = lemma_parent_holds(nodes, id);
    let above = subtree(nodes, q);
    if q > 0 {
        lemma_nodes_sound(nodes, q, skip);
        assert(pre_wf(above, skip));
        assert(pre_wf(above.children[at], skip));
    } else {
        assert(root_wf(above, skip));
        assert(pre_wf(above.children[at], skip));
    }
}

impl File {
    /// Every byte of the text lies in exactly one leaf: the ranges of the
    /// nodes without children, read from left to right, lie one behind the
    /// other from the first byte of the text to the last, without a gap and
    /// without an overlap.
    pub proof fn lemma_leaves_cover_text(&self)
        requires
            self.wf(),
            self.covers_text(),
        ensures
            ranges_tile(
                leaf_ranges(self@),
                TextUnit(0),
                TextUnit(encode_utf8(self.source()).len() as u32),
            ),
    {
        lemma_leaves_tile(self@, trivia_types());
    }
}

impl<'f> Node<'f> {
    /// Every node of a file that covers its text is a sound tree: its
    /// children fill it without a gap, and so on below them.
    pub proof fn lemma_sound(&self)
        requires
            self.wf(),
            self.file().covers_text(),
        ensures
            root_wf(self@, trivia_types()),
            self.id() != 0 ==> pre_wf(self@, trivia_types()),
    {
        if self.id.0 != 0 {
            assert(self.file.nodes@.len() == self.file.nodes.len());
            lemma_nodes_sound(self.file.nodes@, self.id.0 as int, trivia_types());
        }
    }

    /// No node but the root starts or ends with trivia: trivia stand
    /// between the children of a node, or at the two ends of the root.
    /// Neither the first nor the last child of a node is trivia, and neither
    /// is the leftmost or the rightmost leaf below it.
    pub proof fn lemma_trivia_inside(&self)
        requires
            self.wf(),
            self.file().covers_text(),
            self.id() != 0,
            self@.children.len() > 0,
        ensures
            !is_trivia(trivia_types(), self@.children[0]),
            !is_trivia(trivia_types(), self@.children.last()),
            !is_trivia(trivia_types(), first_leaf(self@)),
            !is_trivia(trivia_types(), last_leaf(self@)),
    {
        self.lemma_sound();
        lemma_no_trivia_at_the_ends(self@, trivia_types());
    }

    /// The children of every node stand in the order of the text and
    /// inside their parent: no child starts before the child to its left,
    /// each starts where the one to its left ends, and the range of each is
    /// part of the range of the parent.
    pub proof fn lemma_children_in_order(&self)
        requires
            self.wf(),
            self.file().covers_text(),
        ensures
            forall|i: int, j: int|
                0 <= i <= j < self@.children.len() ==> (#[trigger] self@.children[i]).range.start.0 <= (
                #[trigger] self@.children[j]).range.start.0,
            forall|i: int|
                0 <= i < self@.children.len() ==> (#[trigger] self@.children[i]).range.spec_is_subrange_of(
                    self@.range,
                ),
            self@.children.len() > 0 ==> chained(self@.children, self@.range.start, self@.range.end),
    {
        self.lemma_sound();
        crate::pre::lemma_children_in_order(self@, trivia_types());
    }
}

/// The first of the places `ids` from index `from` on whose node has a
/// range that holds all of `range`.
pub open spec fn first_place_holding(
    nodes: Seq<RawNode>,
    ids: Seq<NodeId>,
    range: TextRange,
    from: int,
) -> Option<int>
    decreases ids.len() - from,
{
    if from < 0 || from >= ids.len() {
        None
    } else if range.spec_is_subrange_of(nodes[ids[from].0 as int].range) {
        Some(ids[from].0 as int)
    } else {
        first_place_holding(nodes, ids, range, from + 1)
    }
}

/// The place of the lowest node that is reached by going, from the node at
/// place `id` down, to the first child whose range holds all of `range`.
pub open spec fn deepest_place(nodes: Seq<RawNode>, id: int, range: TextRange) -> int
    decreases nodes.len() - id,
{
    if 0 <= id < nodes.len() {
        match first_place_holding(nodes, nodes[id].children@, range, 0) {
            Some(c) => if id < c < nodes.len() {
                deepest_place(nodes, c, range)
            } else {
                id
            },
            None => id,
        }
    } else {
        id
    }
}

/// The index of the first tree of `ps` from `from` on whose range holds all
/// of `range`.
pub open spec fn first_holding(ps: Seq<Pre>, range: TextRange, from: int) -> Option<int>
    decreases ps.len() - from,
{
    if from < 0 || from >= ps.len() {
        None
    } else if range.spec_is_subrange_of(ps[from].range) {
        Some(from)
    } else {
        first_holding(ps, range, from + 1)
    }
}

/// The lowest node of `p` that is reached by going, from `p` down, to the
/// first child whose range holds all of `range`.
pub open spec fn deepest(p: Pre, range: TextRange) -> Pre
    decreases p,
{
    match first_holding(p.children, range, 0) {
        Some(i) => if 0 <= i < p.children.len() {
            deepest(p.children[i], range)
        } else {
            p
        },
        None => p,
    }
}

impl<'f> Node<'f> {
    /// The text that the node covers.
    pub fn text(&self) -> (r: &'f str)
        requires
            self.wf(),
            self.file().covers_text(),
        ensures
            r@ == slice_of(self.file().source(), self@.range),
    {
        assert(range_in_text(self.file.nodes()[self.id.0 as int].range, encode_utf8(self.file.text@)));
        slice(self.file.text.as_str(), self.raw().range)
    }

    #[verifier::rlimit(30)]
    /// Writes the tree below this node to the end of `buf`, `level` levels in.
    fn dump_into(&self, level: usize, buf: &mut String)
        requires
            self.wf(),
            self.file().covers_text(),
            self.file().types_named(),
            level <= self.id(),
        ensures
            final(buf)@ == old(buf)@ + dump_tree(
                self@,
                self.file().names(),
                self.file().source(),
                level as nat,
            ),
        decreases self.file.nodes@.len() - self.id.0,
    {
        let ghost names = self.file.names();
        let ghost text = self.file.source();
        let mut i: usize = 0;
        assert(old(buf)@ + indent(0) =~= old(buf)@);
        while i < level
            invariant
                i <= level,
                buf@ == old(buf)@ + indent(i as nat),
            decreases level - i,
        {
            buf.append("  ");
            i += 1;
            assert(old(buf)@ + indent((i - 1) as nat) + "  "@ =~= old(buf)@ + indent(i as nat));
        }
        proof {
            self.lemma_children();
        }
        let raw = self.raw();
        assert(self.file.names().dom().contains(self.file.nodes()[self.id.0 as int].ty));
        let info = self.file.lang.node_type_info(raw.ty);
        buf.append(info.name.as_str());
        if raw.children.len() == 0 {
            let shown = quote(self.text());
            buf.append(" ");
            buf.append(shown.as_str());
            buf.append("\n");
            assert(buf@ =~= old(buf)@ + dump_tree(self@, names, text, level as nat));
        } else {
            buf.append("\n");
            let ghost line = indent(level as nat) + names[self@.ty] + "\n"@;
            assert(buf@ =~= old(buf)@ + line);
            let mut k: usize = 0;
            assert(self@.children.take(0) =~= Seq::<Pre>::empty());
            assert(old(buf)@ + line + Seq::<char>::empty() =~= old(buf)@ + line);
            while k < raw.children.len()
                invariant
                    self.wf(),
                    self.file().covers_text(),
                    self.file().types_named(),
                    level <= self.id(),
                    names == self.file.names(),
                    text == self.file.source(),
                    *raw == self.file.nodes@[self.id.0 as int],
                    k <= raw.children@.len(),
                    self@.children.len() == raw.children@.len(),
                    forall|i: int|
                        0 <= i < self@.children.len() ==> {
                            let c = (#[trigger] self.file.nodes@[self.id.0 as int].children@[i]).0 as int;
                            &&& self.id.0 < c < self.file.nodes@.len()
                            &&& self@.children[i] == subtree(self.file.nodes@, c)
                        },
                    buf@ == old(buf)@ + line + dump_forest(
                        self@.children.take(k as int),
                        names,
                        text,
                        (level + 1) as nat,
                    ),
                decreases raw.children.len() - k,
            {
                let c = raw.children[k];
                assert(self.id.0 < self.file.nodes@[self.id.0 as int].children@[k as int].0
                    < self.file.nodes@.len());
                let child = Node { id: c, file: self.file };
                let ghost before = buf@;
                child.dump_into(level + 1, buf);
                proof {
                    let done = self@.children.take(k as int);
                    let more = self@.children.take(k + 1);
                    assert(more.drop_last() =~= done);
                    assert(more.last() == self@.children[k as int]);
                    assert(buf@ =~= old(buf)@ + line + dump_forest(
                        more,
                        names,
                        text,
                        (level + 1) as nat,
                    ));
                }
                k += 1;
            }
            assert(self@.children.take(k as int) =~= self@.children);
            assert(buf@ =~= old(buf)@ + dump_tree(self@, names, text, level as nat));
        }
    }
}

} // verus!
