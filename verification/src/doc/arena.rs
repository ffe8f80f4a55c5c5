//! The flat indexed Doc arena: a `Vec<DocNode>` of `Copy` nodes whose interior
//! nodes name their children by a [`Range`] into a separate child-id buffer.
//! Leaves carry source offsets and a precomputed display width.

use vstd::prelude::*;

verus! {

/// An index into the arena's node vector.
pub type NodeId = u32;

/// A half-open range `[start, end)` into the child-id buffer.
#[derive(Clone, Copy, Debug, PartialEq, Eq, Structural)]
pub struct Range {
    pub start: NodeId,
    pub end: NodeId,
}

/// A leaf's source span plus its precomputed display width.
#[derive(Clone, Copy, Debug, PartialEq, Eq, Structural)]
pub struct Span {
    /// Byte offset of the slice's start in the render-time source string.
    pub start: u32,
    /// Length of the slice in bytes.
    pub len: u32,
    /// Display width of the slice.
    pub width: u32,
}

/// One Doc node.
#[derive(Clone, Copy, Debug, PartialEq, Eq, Structural)]
pub enum DocNode {
    /// The empty document.
    Nil,
    /// Text with no embedded newline.
    Leaf(Span),
    /// A byte-exact span: internal newlines stay literal; forces every
    /// enclosing group broken.
    Verbatim(Span),
    /// A space when flat, a newline plus indent when broken.
    Line,
    /// A mode-invariant single blank.
    Space,
    /// Nothing when flat, a newline plus indent when broken.
    SoftLine,
    /// A forced newline plus indent; forces every enclosing group broken.
    Hardline,
    /// A non-forcing blank-line marker: nothing when flat, promotes the
    /// adjacent break to a blank line when broken.
    BlankLine,
    /// Indent the children by a relative `delta`.
    Nest { delta: i32, child: Range },
    /// A group: laid flat iff it fits and contains no forced break.
    Group { child: Range, forced_break: bool },
    /// Concatenation: these children, in order.
    Sequence(Range),
}

/// The child range of an interior node, if any.
pub open spec fn child_range(n: DocNode) -> Option<Range> {
    match n {
        DocNode::Nest { child, .. } => Some(child),
        DocNode::Group { child, .. } => Some(child),
        DocNode::Sequence(r) => Some(r),
        _ => None,
    }
}

/// Whether some child id in `cids[lo..hi)` below `bound` names a subtree that
/// holds a `Hardline` or `Verbatim`.
pub open spec fn range_forced(nodes: Seq<DocNode>, cids: Seq<NodeId>, lo: int, hi: int, bound: int) -> bool
    decreases bound, hi - lo,
{
    if lo >= hi || lo < 0 || hi > cids.len() {
        false
    } else {
        let c = cids[hi - 1] as int;
        (0 <= c < bound && node_forced(nodes, cids, c)) || range_forced(nodes, cids, lo, hi - 1, bound)
    }
}

/// Whether the subtree at `id` holds a `Hardline` or a `Verbatim`.
pub open spec fn node_forced(nodes: Seq<DocNode>, cids: Seq<NodeId>, id: int) -> bool
    decreases id + 1, 0int,
{
    if id < 0 || id >= nodes.len() {
        false
    } else {
        match nodes[id] {
            DocNode::Hardline => true,
            DocNode::Verbatim(_) => true,
            DocNode::Nest { child, .. } => range_forced(nodes, cids, child.start as int, child.end as int, id),
            DocNode::Group { child, .. } => range_forced(nodes, cids, child.start as int, child.end as int, id),
            DocNode::Sequence(r) => range_forced(nodes, cids, r.start as int, r.end as int, id),
            _ => false,
        }
    }
}

/// The number of nodes a traversal visits below (and including) `id`: one for
/// the node itself plus its children's subtrees.
pub open spec fn node_size(nodes: Seq<DocNode>, cids: Seq<NodeId>, id: int) -> nat
    decreases id + 1, 0int,
{
    if id < 0 || id >= nodes.len() {
        1
    } else {
        match child_range(nodes[id]) {
            Some(r) => 1 + range_size(nodes, cids, r.start as int, r.end as int, id),
            None => 1,
        }
    }
}

/// The summed sizes of the subtrees named by `cids[lo..hi)` (those below `bound`).
pub open spec fn range_size(nodes: Seq<DocNode>, cids: Seq<NodeId>, lo: int, hi: int, bound: int) -> nat
    decreases bound, hi - lo,
{
    if lo >= hi || lo < 0 || hi > cids.len() {
        0
    } else {
        let c = cids[hi - 1] as int;
        (if 0 <= c < bound { node_size(nodes, cids, c) } else { 0 }) + range_size(nodes, cids, lo, hi - 1, bound)
    }
}

/// A node stored at `id` is well formed: its children lie in the child buffer
/// and were all built before it; a group's `forced_break` is exactly whether its
/// subtree holds a forced break.
pub open spec fn node_wf(nodes: Seq<DocNode>, cids: Seq<NodeId>, n: DocNode, id: int) -> bool {
    &&& match child_range(n) {
        Some(r) => {
            &&& r.start <= r.end <= cids.len()
            &&& forall|k: int| r.start <= k < r.end ==> (#[trigger] cids[k]) < id
        },
        None => true,
    }
    &&& match n {
        DocNode::Group { child, forced_break } => forced_break == range_forced(
            nodes,
            cids,
            child.start as int,
            child.end as int,
            id,
        ),
        _ => true,
    }
}

/// The arena invariant.
pub open spec fn arena_wf(nodes: Seq<DocNode>, cids: Seq<NodeId>) -> bool {
    &&& nodes.len() <= u32::MAX
    &&& cids.len() <= u32::MAX
    &&& forall|i: int| 0 <= i < nodes.len() ==> node_wf(nodes, cids, #[trigger] nodes[i], i)
}

/// A span names a byte range within `src`.
pub open spec fn span_ok(sp: Span, src: Seq<u8>) -> bool {
    sp.start + sp.len <= src.len()
}

/// Every text-carrying node of the arena names a valid slice of `src`.
pub open spec fn spans_ok(nodes: Seq<DocNode>, src: Seq<u8>) -> bool {
    forall|i: int| 0 <= i < nodes.len() ==> match #[trigger] nodes[i] {
        DocNode::Leaf(sp) => span_ok(sp, src),
        DocNode::Verbatim(sp) => span_ok(sp, src),
        _ => true,
    }
}

/// Extending the arena (new nodes and child ids appended) leaves the forced-break
/// fact of every old range unchanged.
pub proof fn lemma_range_forced_frame(
    n1: Seq<DocNode>,
    c1: Seq<NodeId>,
    n2: Seq<DocNode>,
    c2: Seq<NodeId>,
    lo: int,
    hi: int,
    bound: int,
)
    requires
        arena_wf(n1, c1),
        n1.len() <= n2.len(),
        c1.len() <= c2.len(),
        n1 =~= n2.subrange(0, n1.len() as int),
        c1 =~= c2.subrange(0, c1.len() as int),
        0 <= lo <= hi <= c1.len(),
        bound <= n1.len(),
        forall|k: int| lo <= k < hi ==> (#[trigger] c1[k]) < bound,
    ensures
        range_forced(n2, c2, lo, hi, bound) == range_forced(n1, c1, lo, hi, bound),
    decreases bound, hi - lo,
{
    if lo < hi {
        let c = c1[hi - 1] as int;
        assert(c2[hi - 1] == c1[hi - 1]);
        lemma_node_forced_frame(n1, c1, n2, c2, c);
        lemma_range_forced_frame(n1, c1, n2, c2, lo, hi - 1, bound);
    }
}

/// Extending the arena leaves the forced-break fact of every old node unchanged.
pub proof fn lemma_node_forced_frame(n1: Seq<DocNode>, c1: Seq<NodeId>, n2: Seq<DocNode>, c2: Seq<NodeId>, id: int)
    requires
        arena_wf(n1, c1),
        n1.len() <= n2.len(),
        c1.len() <= c2.len(),
        n1 =~= n2.subrange(0, n1.len() as int),
        c1 =~= c2.subrange(0, c1.len() as int),
        0 <= id < n1.len(),
    ensures
        node_forced(n2, c2, id) == node_forced(n1, c1, id),
    decreases id + 1, 0int,
{
    assert(n2[id] == n1[id]);
    assert(node_wf(n1, c1, n1[id], id));
    match n1[id] {
        DocNode::Nest { child, .. } => {
            lemma_range_forced_frame(n1, c1, n2, c2, child.start as int, child.end as int, id);
        },
        DocNode::Group { child, .. } => {
            lemma_range_forced_frame(n1, c1, n2, c2, child.start as int, child.end as int, id);
        },
        DocNode::Sequence(r) => {
            lemma_range_forced_frame(n1, c1, n2, c2, r.start as int, r.end as int, id);
        },
        _ => {},
    }
}

/// The text spans of the subtree at `id`, in document order: what the subtree
/// prints apart from the whitespace its breaks, spaces and indents interpose.
pub open spec fn content(nodes: Seq<DocNode>, cids: Seq<NodeId>, id: int) -> Seq<Span>
    decreases id + 1, 0int,
{
    if id < 0 || id >= nodes.len() {
        Seq::empty()
    } else {
        match nodes[id] {
            DocNode::Leaf(sp) => seq![sp],
            DocNode::Verbatim(sp) => seq![sp],
            DocNode::Nest { child, .. } => range_content(nodes, cids, child.start as int, child.end as int, id),
            DocNode::Group { child, .. } => range_content(nodes, cids, child.start as int, child.end as int, id),
            DocNode::Sequence(r) => range_content(nodes, cids, r.start as int, r.end as int, id),
            _ => Seq::empty(),
        }
    }
}

/// The text spans of the subtrees named by `cids[lo..hi)` (those below
/// `bound`), concatenated in order.
pub open spec fn range_content(nodes: Seq<DocNode>, cids: Seq<NodeId>, lo: int, hi: int, bound: int) -> Seq<Span>
    decreases bound, hi - lo,
{
    if lo >= hi || lo < 0 || hi > cids.len() {
        Seq::empty()
    } else {
        let c = cids[hi - 1] as int;
        range_content(nodes, cids, lo, hi - 1, bound) + if 0 <= c < bound {
            content(nodes, cids, c)
        } else {
            Seq::empty()
        }
    }
}

/// The text spans of the subtrees `items`, concatenated in order.
pub open spec fn items_content(nodes: Seq<DocNode>, cids: Seq<NodeId>, items: Seq<NodeId>) -> Seq<Span>
    decreases items.len(),
{
    if items.len() == 0 {
        Seq::empty()
    } else {
        items_content(nodes, cids, items.drop_last()) + content(nodes, cids, items.last() as int)
    }
}

/// Extending the arena leaves the text of every old range unchanged.
pub proof fn lemma_range_content_frame(
    n1: Seq<DocNode>,
    c1: Seq<NodeId>,
    n2: Seq<DocNode>,
    c2: Seq<NodeId>,
    lo: int,
    hi: int,
    bound: int,
)
    requires
        arena_wf(n1, c1),
        n1.len() <= n2.len(),
        c1.len() <= c2.len(),
        n1 =~= n2.subrange(0, n1.len() as int),
        c1 =~= c2.subrange(0, c1.len() as int),
        0 <= lo <= hi <= c1.len(),
        bound <= n1.len(),
        forall|k: int| lo <= k < hi ==> (#[trigger] c1[k]) < bound,
    ensures
        range_content(n2, c2, lo, hi, bound) == range_content(n1, c1, lo, hi, bound),
    decreases bound, hi - lo,
{
    if lo < hi {
        let c = c1[hi - 1] as int;
        assert(c2[hi - 1] == c1[hi - 1]);
        lemma_content_frame(n1, c1, n2, c2, c);
        lemma_range_content_frame(n1, c1, n2, c2, lo, hi - 1, bound);
    }
}

/// Extending the arena leaves the text of every old node unchanged.
pub proof fn lemma_content_frame(n1: Seq<DocNode>, c1: Seq<NodeId>, n2: Seq<DocNode>, c2: Seq<NodeId>, id: int)
    requires
        arena_wf(n1, c1),
        n1.len() <= n2.len(),
        c1.len() <= c2.len(),
        n1 =~= n2.subrange(0, n1.len() as int),
        c1 =~= c2.subrange(0, c1.len() as int),
        0 <= id < n1.len(),
    ensures
        content(n2, c2, id) == content(n1, c1, id),
    decreases id + 1, 0int,
{
    assert(n2[id] == n1[id]);
    assert(node_wf(n1, c1, n1[id], id));
    match n1[id] {
        DocNode::Nest { child, .. } => {
            lemma_range_content_frame(n1, c1, n2, c2, child.start as int, child.end as int, id);
        },
        DocNode::Group { child, .. } => {
            lemma_range_content_frame(n1, c1, n2, c2, child.start as int, child.end as int, id);
        },
        DocNode::Sequence(r) => {
            lemma_range_content_frame(n1, c1, n2, c2, r.start as int, r.end as int, id);
        },
        _ => {},
    }
}

/// A child range holding exactly `items` (all below `bound`) has the items'
/// text.
pub proof fn lemma_range_content_items(
    nodes: Seq<DocNode>,
    cids: Seq<NodeId>,
    lo: int,
    items: Seq<NodeId>,
    bound: int,
)
    requires
        0 <= lo,
        lo + items.len() <= cids.len(),
        cids.subrange(lo, lo + items.len()) == items,
        forall|k: int| 0 <= k < items.len() ==> (#[trigger] items[k]) < bound,
    ensures
        range_content(nodes, cids, lo, lo + items.len(), bound) == items_content(nodes, cids, items),
    decreases items.len(),
{
    if items.len() > 0 {
        let n = items.len() as int;
        assert(cids[lo + n - 1] == items[n - 1]);
        assert(cids.subrange(lo, lo + n - 1) =~= items.drop_last());
        lemma_range_content_items(nodes, cids, lo, items.drop_last(), bound);
    }
}


/// One piece of what a subtree lays out apart from its breaks: a text span, or
/// a mode-invariant blank.
pub enum Piece {
    Text(Span),
    Blank,
}

/// The text spans and mode-invariant blanks of the subtree at `id`, in
/// document order (breaks and blank-line markers omitted).
pub open spec fn shape(nodes: Seq<DocNode>, cids: Seq<NodeId>, id: int) -> Seq<Piece>
    decreases id + 1, 0int,
{
    if id < 0 || id >= nodes.len() {
        Seq::empty()
    } else {
        match nodes[id] {
            DocNode::Leaf(sp) => seq![Piece::Text(sp)],
            DocNode::Verbatim(sp) => seq![Piece::Text(sp)],
            DocNode::Space => seq![Piece::Blank],
            DocNode::Nest { child, .. } => range_shape(nodes, cids, child.start as int, child.end as int, id),
            DocNode::Group { child, .. } => range_shape(nodes, cids, child.start as int, child.end as int, id),
            DocNode::Sequence(r) => range_shape(nodes, cids, r.start as int, r.end as int, id),
            _ => Seq::empty(),
        }
    }
}

/// The shapes of the subtrees named by `cids[lo..hi)` (those below `bound`),
/// concatenated in order.
pub open spec fn range_shape(nodes: Seq<DocNode>, cids: Seq<NodeId>, lo: int, hi: int, bound: int) -> Seq<Piece>
    decreases bound, hi - lo,
{
    if lo >= hi || lo < 0 || hi > cids.len() {
        Seq::empty()
    } else {
        let c = cids[hi - 1] as int;
        range_shape(nodes, cids, lo, hi - 1, bound) + if 0 <= c < bound {
            shape(nodes, cids, c)
        } else {
            Seq::empty()
        }
    }
}

/// The shapes of the subtrees `items`, concatenated in order.
pub open spec fn items_shape(nodes: Seq<DocNode>, cids: Seq<NodeId>, items: Seq<NodeId>) -> Seq<Piece>
    decreases items.len(),
{
    if items.len() == 0 {
        Seq::empty()
    } else {
        items_shape(nodes, cids, items.drop_last()) + shape(nodes, cids, items.last() as int)
    }
}

/// Extending the arena leaves the shape of every old range unchanged.
pub proof fn lemma_range_shape_frame(
    n1: Seq<DocNode>,
    c1: Seq<NodeId>,
    n2: Seq<DocNode>,
    c2: Seq<NodeId>,
    lo: int,
    hi: int,
    bound: int,
)
    requires
        arena_wf(n1, c1),
        n1.len() <= n2.len(),
        c1.len() <= c2.len(),
        n1 =~= n2.subrange(0, n1.len() as int),
        c1 =~= c2.subrange(0, c1.len() as int),
        0 <= lo <= hi <= c1.len(),
        bound <= n1.len(),
        forall|k: int| lo <= k < hi ==> (#[trigger] c1[k]) < bound,
    ensures
        range_shape(n2, c2, lo, hi, bound) == range_shape(n1, c1, lo, hi, bound),
    decreases bound, hi - lo,
{
    if lo < hi {
        let c = c1[hi - 1] as int;
        assert(c2[hi - 1] == c1[hi - 1]);
        lemma_shape_frame(n1, c1, n2, c2, c);
        lemma_range_shape_frame(n1, c1, n2, c2, lo, hi - 1, bound);
    }
}

/// Extending the arena leaves the shape of every old node unchanged.
pub proof fn lemma_shape_frame(n1: Seq<DocNode>, c1: Seq<NodeId>, n2: Seq<DocNode>, c2: Seq<NodeId>, id: int)
    requires
        arena_wf(n1, c1),
        n1.len() <= n2.len(),
        c1.len() <= c2.len(),
        n1 =~= n2.subrange(0, n1.len() as int),
        c1 =~= c2.subrange(0, c1.len() as int),
        0 <= id < n1.len(),
    ensures
        shape(n2, c2, id) == shape(n1, c1, id),
    decreases id + 1, 0int,
{
    assert(n2[id] == n1[id]);
    assert(node_wf(n1, c1, n1[id], id));
    match n1[id] {
        DocNode::Nest { child, .. } => {
            lemma_range_shape_frame(n1, c1, n2, c2, child.start as int, child.end as int, id);
        },
        DocNode::Group { child, .. } => {
            lemma_range_shape_frame(n1, c1, n2, c2, child.start as int, child.end as int, id);
        },
        DocNode::Sequence(r) => {
            lemma_range_shape_frame(n1, c1, n2, c2, r.start as int, r.end as int, id);
        },
        _ => {},
    }
}

/// A child range holding exactly `items` (all below `bound`) has the items'
/// shape.
pub proof fn lemma_range_shape_items(
    nodes: Seq<DocNode>,
    cids: Seq<NodeId>,
    lo: int,
    items: Seq<NodeId>,
    bound: int,
)
    requires
        0 <= lo,
        lo + items.len() <= cids.len(),
        cids.subrange(lo, lo + items.len()) == items,
        forall|k: int| 0 <= k < items.len() ==> (#[trigger] items[k]) < bound,
    ensures
        range_shape(nodes, cids, lo, lo + items.len(), bound) == items_shape(nodes, cids, items),
    decreases items.len(),
{
    if items.len() > 0 {
        let n = items.len() as int;
        assert(cids[lo + n - 1] == items[n - 1]);
        assert(cids.subrange(lo, lo + n - 1) =~= items.drop_last());
        lemma_range_shape_items(nodes, cids, lo, items.drop_last(), bound);
    }
}

} // verus!
