//! Trees before they are stored in a file: each node knows its type, its
//! range and its children, and nothing of its parent.
use crate::lex::Token;
use crate::node_type::NodeType;
use crate::text::{TextRange, TextUnit};
use vstd::prelude::*;

verus! {

/// The mathematical model of a tree: a node with its type, the range of
/// text that it covers, and its children from left to right.
pub struct Pre {
    pub ty: NodeType,
    pub range: TextRange,
    pub children: Seq<Pre>,
}

/// The tree that holds the one token `t`.
pub open spec fn leaf(t: Token) -> Pre {
    Pre { ty: t.ty, range: t.range, children: Seq::empty() }
}

/// Whether `p` is a token that the grammar does not see: a node without
/// children that covers text and whose type is in `skip`.
pub open spec fn is_trivia(skip: Set<NodeType>, p: Pre) -> bool {
    &&& p.children.len() == 0
    &&& p.range.start.0 < p.range.end.0
    &&& skip.contains(p.ty)
}

/// The tokens under `p`, from left to right. A node without children that
/// covers text is a token; one that covers none holds none.
pub open spec fn pre_tokens(p: Pre) -> Seq<Token>
    decreases p,
{
    if p.children.len() == 0 {
        if p.range.start.0 < p.range.end.0 {
            seq![Token { ty: p.ty, range: p.range }]
        } else {
            Seq::empty()
        }
    } else {
        forest_tokens(p.children)
    }
}

/// The tokens under the trees of `ps`, from left to right.
pub open spec fn forest_tokens(ps: Seq<Pre>) -> Seq<Token>
    decreases ps,
{
    if ps.len() == 0 {
        Seq::empty()
    } else {
        forest_tokens(ps.drop_last()) + pre_tokens(ps.last())
    }
}

/// Whether tree `i` of `ps` ends where the next one starts.
pub open spec fn joined(ps: Seq<Pre>, i: int) -> bool {
    ps[i].range.end == ps[i + 1].range.start
}

/// Whether range `i` of `rs` ends where the next one starts.
pub open spec fn meeting(rs: Seq<TextRange>, i: int) -> bool {
    rs[i].end == rs[i + 1].start
}

/// Whether the ranges of `ps` lie one behind the other from `from` to `to`
/// without a gap: the first starts at `from`, each starts where the one
/// before it ends, and the last ends at `to`. No trees fill no range.
pub open spec fn chained(ps: Seq<Pre>, from: TextUnit, to: TextUnit) -> bool {
    if ps.len() == 0 {
        from == to
    } else {
        &&& ps[0].range.start == from
        &&& ps.last().range.end == to
        &&& forall|i: int| 0 <= i < ps.len() - 1 ==> #[trigger] joined(ps, i)
    }
}

/// Whether `p` is a sound tree to stand below a root. Its range does not
/// end before it starts. Where it has children, they fill its range without
/// a gap, neither the first nor the last of them is trivia, and each of them
/// is a sound tree.
pub open spec fn pre_wf(p: Pre, skip: Set<NodeType>) -> bool
    decreases p,
{
    &&& p.range.wf()
    &&& p.children.len() > 0 ==> {
        &&& chained(p.children, p.range.start, p.range.end)
        &&& !is_trivia(skip, p.children[0])
        &&& !is_trivia(skip, p.children.last())
    }
    &&& forall|i: int| 0 <= i < p.children.len() ==> pre_wf(#[trigger] p.children[i], skip)
}

/// Whether `p` is a sound root: as a tree below a root, but that trivia may
/// stand at its start and at its end.
pub open spec fn root_wf(p: Pre, skip: Set<NodeType>) -> bool {
    &&& p.range.wf()
    &&& p.children.len() > 0 ==> chained(p.children, p.range.start, p.range.end)
    &&& forall|i: int| 0 <= i < p.children.len() ==> pre_wf(#[trigger] p.children[i], skip)
}

/// The ranges of the nodes without children under `p`, from left to right.
pub open spec fn leaf_ranges(p: Pre) -> Seq<TextRange>
    decreases p,
{
    if p.children.len() == 0 {
        seq![p.range]
    } else {
        forest_leaf_ranges(p.children)
    }
}

/// The ranges of the nodes without children under the trees of `ps`.
pub open spec fn forest_leaf_ranges(ps: Seq<Pre>) -> Seq<TextRange>
    decreases ps,
{
    if ps.len() == 0 {
        Seq::empty()
    } else {
        forest_leaf_ranges(ps.drop_last()) + leaf_ranges(ps.last())
    }
}

/// Whether `rs` lie one behind the other from `from` to `to` without a gap
/// and without an overlap.
pub open spec fn ranges_tile(rs: Seq<TextRange>, from: TextUnit, to: TextUnit) -> bool {
    if rs.len() == 0 {
        from == to
    } else {
        &&& rs[0].start == from
        &&& rs.last().end == to
        &&& forall|i: int| 0 <= i < rs.len() ==> (#[trigger] rs[i]).wf()
        &&& forall|i: int| 0 <= i < rs.len() - 1 ==> #[trigger] meeting(rs, i)
    }
}

/// Two runs of ranges that tile two stretches which meet tile the whole.
pub proof fn lemma_ranges_tile_concat(
    a: Seq<TextRange>,
    b: Seq<TextRange>,
    from: TextUnit,
    mid: TextUnit,
    to: TextUnit,
)
    requires
        ranges_tile(a, from, mid),
        ranges_tile(b, mid, to),
    ensures
        ranges_tile(a + b, from, to),
{
    let all = a + b;
    if a.len() == 0 {
        assert(all =~= b);
    } else if b.len() == 0 {
        assert(all =~= a);
    } else {
        assert(all[0] == a[0]);
        assert(all.last() == b.last());
        assert forall|i: int| 0 <= i < all.len() implies (#[trigger] all[i]).wf() by {
            if i < a.len() {
                assert(all[i] == a[i]);
            } else {
                assert(all[i] == b[i - a.len()]);
            }
        }
        assert forall|i: int| 0 <= i < all.len() - 1 implies #[trigger] meeting(all, i) by {
            if i < a.len() - 1 {
                assert(meeting(a, i));
                assert(all[i] == a[i]);
                assert(all[i + 1] == a[i + 1]);
            } else if i == a.len() - 1 {
                assert(all[i] == a.last());
                assert(all[i + 1] == b[0]);
            } else {
                assert(meeting(b, i - a.len()));
                assert(all[i] == b[i - a.len()]);
                assert(all[i + 1] == b[i - a.len() + 1]);
            }
        }
    }
}

/// Every byte of a sound tree lies in exactly one leaf: the ranges of the
/// leaves, read from left to right, tile the range of the tree.
pub proof fn lemma_leaves_tile(p: Pre, skip: Set<NodeType>)
    requires
        root_wf(p, skip),
    ensures
        ranges_tile(leaf_ranges(p), p.range.start, p.range.end),
    decreases p, 1nat,
{
    if p.children.len() > 0 {
        lemma_forest_leaves_tile(p.children, skip, p.range.start, p.range.end);
    }
}

/// The leaves of trees that stand in a chain tile what the chain covers.
pub proof fn lemma_forest_leaves_tile(ps: Seq<Pre>, skip: Set<NodeType>, from: TextUnit, to: TextUnit)
    requires
        ps.len() > 0,
        chained(ps, from, to),
        forall|i: int| 0 <= i < ps.len() ==> pre_wf(#[trigger] ps[i], skip),
    ensures
        ranges_tile(forest_leaf_ranges(ps), from, to),
    decreases ps, 0nat,
{
    let last = ps.last();
    let before = ps.drop_last();
    assert(pre_wf(last, skip));
    lemma_leaves_tile(last, skip);
    if before.len() == 0 {
        assert(forest_leaf_ranges(before) =~= Seq::empty());
        assert(forest_leaf_ranges(ps) =~= leaf_ranges(last));
    } else {
        assert(before.last() == ps[ps.len() - 2]);
        assert(before[0] == ps[0]);
        assert forall|i: int| 0 <= i < before.len() implies pre_wf(#[trigger] before[i], skip) by {
            assert(before[i] == ps[i]);
        }
        assert forall|i: int| 0 <= i < before.len() - 1 implies #[trigger] joined(before, i) by {
            assert(joined(ps, i));
            assert(before[i] == ps[i]);
            assert(before[i + 1] == ps[i + 1]);
        }
        assert(joined(ps, ps.len() - 2));
        lemma_forest_leaves_tile(before, skip, from, last.range.start);
        lemma_ranges_tile_concat(
            forest_leaf_ranges(before),
            leaf_ranges(last),
            from,
            last.range.start,
            to,
        );
    }
}

/// The children of a sound tree stand in the order of the text and inside
/// their parent: no child starts before the child to its left, and the
/// range of each child is part of the range of the parent.
pub proof fn lemma_children_in_order(p: Pre, skip: Set<NodeType>)
    requires
        root_wf(p, skip),
    ensures
        forall|i: int, j: int|
            0 <= i <= j < p.children.len() ==> (#[trigger] p.children[i]).range.start.0 <= (
            #[trigger] p.children[j]).range.start.0,
        forall|i: int|
            0 <= i < p.children.len() ==> (#[trigger] p.children[i]).range.spec_is_subrange_of(
                p.range,
            ),
{
    let cs = p.children;
    if cs.len() > 0 {
        assert forall|k: int| 0 <= k < cs.len() implies (#[trigger] cs[k]).range.wf() by {
            assert(pre_wf(cs[k], skip));
        }
        assert forall|j: int| 0 <= j < cs.len() implies (#[trigger] cs[j]).range.spec_is_subrange_of(
            p.range,
        ) by {
            lemma_chain_steps(cs, 0, j);
            if j < cs.len() - 1 {
                lemma_chain_steps(cs, j + 1, cs.len() - 1);
                assert(joined(cs, j));
            }
        }
        assert forall|i: int, j: int| 0 <= i <= j < cs.len() implies (#[trigger] cs[i]).range.start.0 <= (
        #[trigger] cs[j]).range.start.0 by {
            lemma_chain_steps(cs, i, j);
        }
    }
}

/// In a chain of ranges, one further right does not start before one
/// further left.
pub proof fn lemma_chain_steps(cs: Seq<Pre>, i: int, j: int)
    requires
        0 <= i <= j < cs.len(),
        forall|k: int| 0 <= k < cs.len() ==> (#[trigger] cs[k]).range.wf(),
        forall|k: int| 0 <= k < cs.len() - 1 ==> #[trigger] joined(cs, k),
    ensures
        cs[i].range.start.0 <= cs[j].range.start.0,
    decreases j - i,
{
    if i < j {
        lemma_chain_steps(cs, i, j - 1);
        assert(cs[j - 1].range.wf());
        assert(joined(cs, j - 1));
    }
}

/// The leftmost node without children under `p`.
pub open spec fn first_leaf(p: Pre) -> Pre
    decreases p,
{
    if p.children.len() == 0 {
        p
    } else {
        first_leaf(p.children[0])
    }
}

/// The rightmost node without children under `p`.
pub open spec fn last_leaf(p: Pre) -> Pre
    decreases p,
{
    if p.children.len() == 0 {
        p
    } else {
        last_leaf(p.children.last())
    }
}

/// A sound tree below a root neither starts nor ends with trivia, however
/// deep one looks: where it has children, its leftmost and its rightmost
/// leaf are no trivia.
pub proof fn lemma_no_trivia_at_the_ends(p: Pre, skip: Set<NodeType>)
    requires
        pre_wf(p, skip),
        p.children.len() > 0,
    ensures
        !is_trivia(skip, first_leaf(p)),
        !is_trivia(skip, last_leaf(p)),
    decreases p,
{
    let first = p.children[0];
    let last = p.children.last();
    assert(pre_wf(first, skip));
    assert(pre_wf(last, skip));
    if first.children.len() > 0 {
        lemma_no_trivia_at_the_ends(first, skip);
    }
    if last.children.len() > 0 {
        lemma_no_trivia_at_the_ends(last, skip);
    }
}

/// A tree as the builder holds it while it parses.
#[derive(Debug)]
pub struct PreNode {
    pub ty: NodeType,
    pub range: TextRange,
    pub children: Vec<PreNode>,
}

/// The models of `nodes`, in their order.
pub open spec fn forest_model(nodes: Seq<PreNode>) -> Seq<Pre>
    decreases nodes,
{
    if nodes.len() == 0 {
        Seq::empty()
    } else {
        forest_model(nodes.drop_last()).push(nodes.last().model())
    }
}

impl PreNode {
    /// The tree that this node stands for.
    pub open spec fn model(&self) -> Pre
        decreases self,
    {
        Pre { ty: self.ty, range: self.range, children: forest_model(self.children@) }
    }
}

/// The models of some nodes are as many as the nodes, and each is the model
/// of the node at its place.
pub proof fn lemma_forest_model(nodes: Seq<PreNode>)
    ensures
        forest_model(nodes).len() == nodes.len(),
        forall|i: int| 0 <= i < nodes.len() ==> forest_model(nodes)[i] == (#[trigger] nodes[i]).model(),
    decreases nodes.len(),
{
    if nodes.len() > 0 {
        lemma_forest_model(nodes.drop_last());
        assert forall|i: int| 0 <= i < nodes.len() implies forest_model(nodes)[i] == (#[trigger] nodes[i]).model() by {
            if i < nodes.len() - 1 {
                assert(nodes.drop_last()[i] == nodes[i]);
            }
        }
    }
}

} // verus!
