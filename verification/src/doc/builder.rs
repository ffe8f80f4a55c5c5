//! The Doc algebra as a builder writing into the flat arena. Concatenation is
//! "append these ids to the child-id buffer, record the range"; a finished
//! [`Doc`] is the two vectors plus the id of its root node.

use super::arena::{
    arena_wf, child_range, content, items_content, items_shape, lemma_content_frame, lemma_node_forced_frame,
    lemma_range_content_items, lemma_range_forced_frame, lemma_range_shape_items, lemma_shape_frame, node_forced,
    node_wf, range_content, range_forced, range_shape, shape, DocNode, NodeId, Piece, Range, Span,
};
use crate::text::{display_width, display_width_spec};
use vstd::prelude::*;
use vstd::string::StringSliceAdditionalSpecFns;

verus! {

/// A finished document: the arena (nodes plus child-id buffer) and its root.
#[derive(Clone, Debug)]
pub struct Doc {
    nodes: Vec<DocNode>,
    child_ids: Vec<NodeId>,
    root: NodeId,
}

impl Doc {
    /// The arena's nodes.
    pub closed spec fn nodes_spec(&self) -> Seq<DocNode> {
        self.nodes@
    }

    /// The arena's child-id buffer.
    pub closed spec fn cids_spec(&self) -> Seq<NodeId> {
        self.child_ids@
    }

    /// The root node's id.
    pub closed spec fn root_spec(&self) -> NodeId {
        self.root
    }

    /// A finished document is a well-formed arena with a valid root.
    pub open spec fn wf(&self) -> bool {
        &&& arena_wf(self.nodes_spec(), self.cids_spec())
        &&& self.root_spec() < self.nodes_spec().len()
    }

    /// The node at `id`.
    pub fn node(&self, id: NodeId) -> (n: DocNode)
        requires
            id < self.nodes_spec().len(),
        ensures
            n == self.nodes_spec()[id as int],
    {
        self.nodes[id as usize]
    }

    /// The root node's id.
    pub fn root(&self) -> (r: NodeId)
        ensures
            r == self.root_spec(),
    {
        self.root
    }

    /// The number of nodes in the arena.
    pub fn len(&self) -> (n: usize)
        ensures
            n == self.nodes_spec().len(),
    {
        self.nodes.len()
    }

    /// The child id stored at position `k` of the child-id buffer.
    pub fn child_id(&self, k: u32) -> (c: NodeId)
        requires
            k < self.cids_spec().len(),
        ensures
            c == self.cids_spec()[k as int],
    {
        self.child_ids[k as usize]
    }
}

/// Builds a [`Doc`] in the flat arena. `Leaf`/`Verbatim` are the only text
/// carriers and are constructed only from a source slice.
#[derive(Debug)]
pub struct DocBuilder {
    nodes: Vec<DocNode>,
    child_ids: Vec<NodeId>,
    /// Index-parallel to `nodes`: `forced[i]` holds iff the subtree at `i`
    /// contains a `Hardline` or `Verbatim`, maintained at push time so `group`
    /// reads a child's flag in O(1).
    forced: Vec<bool>,
    /// The arena ran out of `u32` ids at some operation. From then on every
    /// operation hands back an existing node instead of building one.
    full: bool,
}

/// The builder's invariant over its three vectors.
pub open spec fn builder_inv(nodes: Seq<DocNode>, cids: Seq<NodeId>, forced: Seq<bool>) -> bool {
    &&& arena_wf(nodes, cids)
    &&& forced.len() == nodes.len()
    &&& forall|i: int| 0 <= i < nodes.len() ==> #[trigger] forced[i] == node_forced(nodes, cids, i)
    &&& nodes.len() == 0 ==> cids.len() == 0
}

/// The text of the subtree at `id` of `b` (see [`content`]).
pub open spec fn doc_text(b: DocBuilder, id: int) -> Seq<Span> {
    content(b.nodes_spec(), b.cids_spec(), id)
}

/// The texts of the subtrees `items` of `b`, concatenated in order.
pub open spec fn items_text(b: DocBuilder, items: Seq<NodeId>) -> Seq<Span> {
    items_content(b.nodes_spec(), b.cids_spec(), items)
}

/// The text spans and blanks of the subtree at `id` of `b` (see [`shape`]).
pub open spec fn doc_layout(b: DocBuilder, id: int) -> Seq<Piece> {
    shape(b.nodes_spec(), b.cids_spec(), id)
}

/// The layouts of the subtrees `items` of `b`, concatenated in order.
pub open spec fn items_layout(b: DocBuilder, items: Seq<NodeId>) -> Seq<Piece> {
    items_shape(b.nodes_spec(), b.cids_spec(), items)
}

/// Every node of `b0` has the same text, and the same text and blanks, in `b1`.
pub open spec fn stable(b0: DocBuilder, b1: DocBuilder) -> bool {
    &&& forall|x: int| 0 <= x < b0.nodes_spec().len() ==> #[trigger] doc_text(b1, x) == doc_text(b0, x)
    &&& forall|x: int| 0 <= x < b0.nodes_spec().len() ==> #[trigger] doc_layout(b1, x) == doc_layout(b0, x)
}

/// The arena has room for one more node with `k` children, and has never run
/// out: an operation then builds its node as the next id.
pub open spec fn room_spec(b: DocBuilder, k: int) -> bool {
    &&& !b.full_spec()
    &&& b.nodes_spec().len() < u32::MAX
    &&& b.cids_spec().len() + k <= u32::MAX
}

/// A builder operation from `b0` to `b1` kept every old node's text, and an
/// arena that was full stays full.
pub open spec fn settled(b0: DocBuilder, b1: DocBuilder) -> bool {
    &&& b0.full_spec() ==> b1.full_spec()
    &&& stable(b0, b1)
}

/// Items that all name nodes of `b0` have the same text in any `b1` that keeps
/// the text of `b0`'s nodes.
pub proof fn lemma_items_stable(b0: DocBuilder, b1: DocBuilder, items: Seq<NodeId>)
    requires
        stable(b0, b1),
        forall|k: int| 0 <= k < items.len() ==> (#[trigger] items[k]) < b0.nodes_spec().len(),
    ensures
        items_text(b1, items) == items_text(b0, items),
        items_layout(b1, items) == items_layout(b0, items),
    decreases items.len(),
{
    if items.len() > 0 {
        assert(items.last() == items[items.len() - 1]);
        assert(doc_text(b1, items.last() as int) == doc_text(b0, items.last() as int));
        assert(doc_layout(b1, items.last() as int) == doc_layout(b0, items.last() as int));
        lemma_items_stable(b0, b1, items.drop_last());
    }
}

/// The outcome of one builder operation: either `n` was appended as node `r`,
/// or (the arena being full) nothing was appended and `r` names an existing node.
pub open spec fn pushed(old: Seq<DocNode>, new: Seq<DocNode>, n: DocNode, r: NodeId) -> bool {
    ||| (new == old.push(n) && r == old.len())
    ||| (new == old && r < old.len())
}

impl DocBuilder {
    /// The nodes built so far.
    pub closed spec fn nodes_spec(&self) -> Seq<DocNode> {
        self.nodes@
    }

    /// The child-id buffer built so far.
    pub closed spec fn cids_spec(&self) -> Seq<NodeId> {
        self.child_ids@
    }

    /// Whether the arena has run out of ids (see the field).
    pub closed spec fn full_spec(&self) -> bool {
        self.full
    }

    /// The builder invariant.
    pub closed spec fn wf(&self) -> bool {
        &&& builder_inv(self.nodes@, self.child_ids@, self.forced@)
        &&& self.full ==> self.nodes@.len() > 0
    }

    /// Whether the arena has run out of ids: some operation handed back an
    /// existing node instead of building one.
    pub fn is_full(&self) -> (r: bool)
        ensures
            r == self.full_spec(),
    {
        self.full
    }

    /// The builder's arena is well formed whenever its invariant holds.
    pub proof fn lemma_wf_arena(&self)
        requires
            self.wf(),
        ensures
            arena_wf(self.nodes_spec(), self.cids_spec()),
    {
    }

    /// A fresh, empty builder.
    pub fn new() -> (b: Self)
        ensures
            b.wf(),
            b.nodes_spec().len() == 0,
            b.cids_spec().len() == 0,
            !b.full_spec(),
    {
        DocBuilder { nodes: Vec::new(), child_ids: Vec::new(), forced: Vec::new(), full: false }
    }

    /// The number of nodes built so far.
    pub fn len(&self) -> (n: usize)
        ensures
            n == self.nodes_spec().len(),
    {
        self.nodes.len()
    }

    /// Whether one more node with `k` children can be recorded.
    fn room(&self, k: usize) -> (r: bool)
        requires
            self.wf(),
        ensures
            r == (self.nodes@.len() < u32::MAX && self.child_ids@.len() + k <= u32::MAX),
    {
        self.nodes.len() < 0xffff_ffffusize && k <= 0xffff_ffffusize - self.child_ids.len()
    }

    /// An existing node to hand back when the arena is full.
    fn fallback(&self) -> (r: NodeId)
        requires
            self.nodes@.len() > 0,
            self.nodes@.len() <= u32::MAX,
        ensures
            r < self.nodes@.len(),
    {
        0
    }

    /// Whether the range `cids[lo..hi)` names a forced subtree, read off the
    /// per-node flags in O(arity).
    fn range_forced_exec(&self, lo: u32, hi: u32) -> (r: bool)
        requires
            self.wf(),
            lo <= hi <= self.child_ids@.len(),
            forall|k: int| lo <= k < hi ==> (#[trigger] self.child_ids@[k]) < self.nodes@.len(),
        ensures
            r == range_forced(self.nodes@, self.child_ids@, lo as int, hi as int, self.nodes@.len() as int),
    {
        let mut acc = false;
        let mut j = lo;
        while j < hi
            invariant
                self.wf(),
                lo <= j <= hi <= self.child_ids@.len(),
                forall|k: int| lo <= k < hi ==> (#[trigger] self.child_ids@[k]) < self.nodes@.len(),
                range_forced(self.nodes@, self.child_ids@, lo as int, hi as int, self.nodes@.len() as int)
                    == (acc || range_forced(self.nodes@, self.child_ids@, j as int, hi as int, self.nodes@.len() as int)),
            decreases hi - j,
        {
            let c = self.child_ids[j as usize];
            assert(self.child_ids@[j as int] == c);
            let f = self.forced[c as usize];
            proof {
                lemma_range_forced_split(self.nodes@, self.child_ids@, j as int, hi as int, self.nodes@.len() as int);
            }
            acc = acc || f;
            j = j + 1;
        }
        acc
    }

    /// Append `node` as the next node; `node` must be well formed at that index.
    fn push(&mut self, node: DocNode) -> (id: NodeId)
        requires
            old(self).wf(),
            old(self).nodes@.len() < u32::MAX,
            node_wf(old(self).nodes@, old(self).child_ids@, node, old(self).nodes@.len() as int),
            old(self).nodes@.len() == 0 ==> old(self).child_ids@.len() == 0,
        ensures
            final(self).wf(),
            final(self).nodes@ == old(self).nodes@.push(node),
            final(self).child_ids@ == old(self).child_ids@,
            id == old(self).nodes@.len(),
            final(self).full == old(self).full,
            stable(*old(self), *final(self)),
    {
        let ghost n1 = self.nodes@;
        let ghost c1 = self.child_ids@;
        let id = self.nodes.len() as u32;
        let f = match node {
            DocNode::Hardline | DocNode::Verbatim(_) => true,
            DocNode::Group { forced_break, .. } => forced_break,
            DocNode::Nest { child, .. } => self.range_forced_exec(child.start, child.end),
            DocNode::Sequence(child) => self.range_forced_exec(child.start, child.end),
            _ => false,
        };
        self.nodes.push(node);
        self.forced.push(f);
        proof {
            let n2 = self.nodes@;
            assert(n1 =~= n2.subrange(0, n1.len() as int));
            assert(c1 =~= c1.subrange(0, c1.len() as int));
            match node {
                DocNode::Nest { child, .. } => {
                    lemma_range_forced_frame(n1, c1, n2, c1, child.start as int, child.end as int, id as int);
                },
                DocNode::Group { child, .. } => {
                    lemma_range_forced_frame(n1, c1, n2, c1, child.start as int, child.end as int, id as int);
                },
                DocNode::Sequence(child) => {
                    lemma_range_forced_frame(n1, c1, n2, c1, child.start as int, child.end as int, id as int);
                },
                _ => {},
            }
            assert forall|i: int| 0 <= i < n2.len() implies #[trigger] self.forced@[i] == node_forced(n2, c1, i) by {
                if i < n1.len() {
                    lemma_node_forced_frame(n1, c1, n2, c1, i);
                }
            }
            assert forall|i: int| 0 <= i < n2.len() implies node_wf(n2, c1, #[trigger] n2[i], i) by {
                if i < n1.len() {
                    assert(node_wf(n1, c1, n1[i], i));
                    match n1[i] {
                        DocNode::Group { child, .. } => {
                            lemma_range_forced_frame(n1, c1, n2, c1, child.start as int, child.end as int, i);
                        },
                        _ => {},
                    }
                }
            }
            assert forall|x: int| 0 <= x < n1.len() implies #[trigger] doc_text(*self, x) == doc_text(
                *old(self),
                x,
            ) by {
                lemma_content_frame(n1, c1, n2, c1, x);
            }
            assert forall|x: int| 0 <= x < n1.len() implies #[trigger] doc_layout(*self, x) == doc_layout(
                *old(self),
                x,
            ) by {
                lemma_shape_frame(n1, c1, n2, c1, x);
            }
        }
        id
    }

    /// Append `items` to the child-id buffer and return the range they occupy.
    fn push_children(&mut self, items: &[NodeId]) -> (r: Range)
        requires
            old(self).wf(),
            old(self).child_ids@.len() + items@.len() <= u32::MAX,
            forall|k: int| 0 <= k < items@.len() ==> (#[trigger] items@[k]) < old(self).nodes@.len(),
        ensures
            final(self).wf(),
            final(self).nodes@ == old(self).nodes@,
            final(self).child_ids@ == old(self).child_ids@ + items@,
            r.start == old(self).child_ids@.len(),
            r.end == final(self).child_ids@.len(),
            final(self).full == old(self).full,
            stable(*old(self), *final(self)),
    {
        let ghost n1 = self.nodes@;
        let ghost c1 = self.child_ids@;
        let start = self.child_ids.len() as u32;
        let mut j: usize = 0;
        while j < items.len()
            invariant
                self.nodes@ == n1,
                self.forced@ == old(self).forced@,
                self.full == old(self).full,
                self.child_ids@ == c1 + items@.subrange(0, j as int),
                j <= items@.len(),
            decreases items@.len() - j,
        {
            self.child_ids.push(items[j]);
            assert(c1 + items@.subrange(0, j + 1) =~= (c1 + items@.subrange(0, j as int)).push(items@[j as int]));
            j = j + 1;
        }
        assert(items@.subrange(0, items@.len() as int) =~= items@);
        let end = self.child_ids.len() as u32;
        proof {
            let c2 = self.child_ids@;
            assert(n1 =~= n1.subrange(0, n1.len() as int));
            assert(c1 =~= c2.subrange(0, c1.len() as int));
            if items@.len() > 0 {
                assert(items@[0] < n1.len());
            }
            assert forall|i: int| 0 <= i < n1.len() implies #[trigger] self.forced@[i] == node_forced(n1, c2, i) by {
                lemma_node_forced_frame(n1, c1, n1, c2, i);
            }
            assert forall|i: int| 0 <= i < n1.len() implies node_wf(n1, c2, #[trigger] n1[i], i) by {
                assert(node_wf(n1, c1, n1[i], i));
                match n1[i] {
                    DocNode::Group { child, .. } => {
                        lemma_range_forced_frame(n1, c1, n1, c2, child.start as int, child.end as int, i);
                    },
                    _ => {},
                }
                match child_range(n1[i]) {
                    Some(r) => {
                        assert forall|k: int| r.start <= k < r.end implies (#[trigger] c2[k]) < i by {
                            assert(c2[k] == c1[k]);
                        }
                    },
                    None => {},
                }
            }
            assert forall|x: int| 0 <= x < n1.len() implies #[trigger] doc_text(*self, x) == doc_text(
                *old(self),
                x,
            ) by {
                lemma_content_frame(n1, c1, n1, c2, x);
            }
            assert forall|x: int| 0 <= x < n1.len() implies #[trigger] doc_layout(*self, x) == doc_layout(
                *old(self),
                x,
            ) by {
                lemma_shape_frame(n1, c1, n1, c2, x);
            }
        }
        Range { start, end }
    }

    /// Push a childless node (or hand back an existing one when the arena is full).
    fn push_leafy(&mut self, node: DocNode) -> (id: NodeId)
        requires
            old(self).wf(),
            child_range(node) is None,
        ensures
            final(self).wf(),
            pushed(old(self).nodes@, final(self).nodes@, node, id),
            final(self).nodes@.len() > 0,
            final(self).child_ids@ == old(self).child_ids@,
            settled(*old(self), *final(self)),
            room_spec(*old(self), 0) ==> !final(self).full && id == old(self).nodes@.len(),
            !final(self).full ==> id == old(self).nodes@.len(),
    {
        if !self.full && self.room(0) {
            self.push(node)
        } else {
            self.full = true;
            self.fallback()
        }
    }

    /// The empty document.
    pub fn nil(&mut self) -> (id: NodeId)
        requires
            old(self).wf(),
        ensures
            final(self).wf(),
            pushed(old(self).nodes_spec(), final(self).nodes_spec(), DocNode::Nil, id),
            final(self).cids_spec() == old(self).cids_spec(),
            settled(*old(self), *final(self)),
            room_spec(*old(self), 0) ==> !final(self).full_spec() && id == old(self).nodes_spec().len(),
            !final(self).full_spec() ==> id == old(self).nodes_spec().len(),
    {
        self.push_leafy(DocNode::Nil)
    }

    /// A leaf from a source slice at byte offset `start`. The slice carries no
    /// newline (newline-bearing slices go to [`verbatim`](Self::verbatim)); its
    /// display width is precomputed once.
    pub fn leaf(&mut self, start: u32, slice: &str) -> (id: NodeId)
        requires
            old(self).wf(),
            slice.spec_bytes().len() <= u32::MAX,
        ensures
            final(self).wf(),
            pushed(
                old(self).nodes_spec(),
                final(self).nodes_spec(),
                DocNode::Leaf(Span {
                    start,
                    len: slice.spec_bytes().len() as u32,
                    width: if display_width_spec(slice@) <= u32::MAX {
                        display_width_spec(slice@) as u32
                    } else {
                        u32::MAX
                    },
                }),
                id,
            ),
            final(self).cids_spec() == old(self).cids_spec(),
            settled(*old(self), *final(self)),
            room_spec(*old(self), 0) ==> !final(self).full_spec() && id == old(self).nodes_spec().len(),
            !final(self).full_spec() ==> id == old(self).nodes_spec().len(),
    {
        let w = display_width(slice);
        let width = if w <= 0xffff_ffffusize { w as u32 } else { 0xffff_ffffu32 };
        let span = Span { start, len: slice.len() as u32, width };
        self.push_leafy(DocNode::Leaf(span))
    }

    /// A byte-exact verbatim span: internal newlines stay literal and it forces
    /// enclosing groups broken. Its width is zero: it can never render flat.
    pub fn verbatim(&mut self, start: u32, slice: &str) -> (id: NodeId)
        requires
            old(self).wf(),
            slice.spec_bytes().len() <= u32::MAX,
        ensures
            final(self).wf(),
            pushed(
                old(self).nodes_spec(),
                final(self).nodes_spec(),
                DocNode::Verbatim(Span { start, len: slice.spec_bytes().len() as u32, width: 0 }),
                id,
            ),
            final(self).cids_spec() == old(self).cids_spec(),
            settled(*old(self), *final(self)),
            room_spec(*old(self), 0) ==> !final(self).full_spec() && id == old(self).nodes_spec().len(),
            !final(self).full_spec() ==> id == old(self).nodes_spec().len(),
    {
        let span = Span { start, len: slice.len() as u32, width: 0 };
        self.push_leafy(DocNode::Verbatim(span))
    }

    /// A space when flat, a newline plus indent when broken.
    pub fn line(&mut self) -> (id: NodeId)
        requires
            old(self).wf(),
        ensures
            final(self).wf(),
            pushed(old(self).nodes_spec(), final(self).nodes_spec(), DocNode::Line, id),
            final(self).cids_spec() == old(self).cids_spec(),
            settled(*old(self), *final(self)),
            room_spec(*old(self), 0) ==> !final(self).full_spec() && id == old(self).nodes_spec().len(),
            !final(self).full_spec() ==> id == old(self).nodes_spec().len(),
    {
        self.push_leafy(DocNode::Line)
    }

    /// A mode-invariant literal blank.
    pub fn space(&mut self) -> (id: NodeId)
        requires
            old(self).wf(),
        ensures
            final(self).wf(),
            pushed(old(self).nodes_spec(), final(self).nodes_spec(), DocNode::Space, id),
            final(self).cids_spec() == old(self).cids_spec(),
            settled(*old(self), *final(self)),
            room_spec(*old(self), 0) ==> !final(self).full_spec() && id == old(self).nodes_spec().len(),
            !final(self).full_spec() ==> id == old(self).nodes_spec().len(),
            !final(self).full_spec() ==> doc_layout(*final(self), id as int) == seq![Piece::Blank],
    {
        self.push_leafy(DocNode::Space)
    }

    /// Nothing when flat, a newline plus indent when broken.
    pub fn softline(&mut self) -> (id: NodeId)
        requires
            old(self).wf(),
        ensures
            final(self).wf(),
            pushed(old(self).nodes_spec(), final(self).nodes_spec(), DocNode::SoftLine, id),
            final(self).cids_spec() == old(self).cids_spec(),
            settled(*old(self), *final(self)),
            room_spec(*old(self), 0) ==> !final(self).full_spec() && id == old(self).nodes_spec().len(),
            !final(self).full_spec() ==> id == old(self).nodes_spec().len(),
    {
        self.push_leafy(DocNode::SoftLine)
    }

    /// A forced newline plus indent; forces enclosing groups broken.
    pub fn hardline(&mut self) -> (id: NodeId)
        requires
            old(self).wf(),
        ensures
            final(self).wf(),
            pushed(old(self).nodes_spec(), final(self).nodes_spec(), DocNode::Hardline, id),
            final(self).cids_spec() == old(self).cids_spec(),
            settled(*old(self), *final(self)),
            room_spec(*old(self), 0) ==> !final(self).full_spec() && id == old(self).nodes_spec().len(),
            !final(self).full_spec() ==> id == old(self).nodes_spec().len(),
    {
        self.push_leafy(DocNode::Hardline)
    }

    /// A non-forcing conditional blank line.
    pub fn blank_line(&mut self) -> (id: NodeId)
        requires
            old(self).wf(),
        ensures
            final(self).wf(),
            pushed(old(self).nodes_spec(), final(self).nodes_spec(), DocNode::BlankLine, id),
            final(self).cids_spec() == old(self).cids_spec(),
            settled(*old(self), *final(self)),
            room_spec(*old(self), 0) ==> !final(self).full_spec() && id == old(self).nodes_spec().len(),
            !final(self).full_spec() ==> id == old(self).nodes_spec().len(),
    {
        self.push_leafy(DocNode::BlankLine)
    }

    /// Indent `child` by a relative `delta`.
    pub fn nest(&mut self, delta: i32, child: NodeId) -> (id: NodeId)
        requires
            old(self).wf(),
            child < old(self).nodes_spec().len(),
        ensures
            final(self).wf(),
            pushed(
                old(self).nodes_spec(),
                final(self).nodes_spec(),
                DocNode::Nest {
                    delta,
                    child: Range {
                        start: old(self).cids_spec().len() as u32,
                        end: (old(self).cids_spec().len() + 1) as u32,
                    },
                },
                id,
            ),
            final(self).cids_spec().len() >= old(self).cids_spec().len(),
            id == old(self).nodes_spec().len() ==> final(self).cids_spec()[old(self).cids_spec().len() as int] == child,
            settled(*old(self), *final(self)),
            room_spec(*old(self), 1) ==> !final(self).full_spec() && id == old(self).nodes_spec().len(),
            !final(self).full_spec() ==> id == old(self).nodes_spec().len() && doc_text(*final(self), id as int)
                == doc_text(*old(self), child as int),
            !final(self).full_spec() ==> doc_layout(*final(self), id as int) == doc_layout(*old(self), child as int),
    {
        if self.full || !self.room(1) {
            self.full = true;
            return self.fallback();
        }
        let items = [child];
        let ghost b0 = *self;
        let r = self.push_children(&items);
        assert(self.child_ids@[r.start as int] == child);
        let ghost b1 = *self;
        let id = self.push(DocNode::Nest { delta, child: r });
        proof {
            let nn = self.nodes@;
            let cc = self.child_ids@;
            assert(range_content(nn, cc, r.start as int, r.start as int, id as int) =~= Seq::<Span>::empty());
            assert(doc_text(*self, id as int) == range_content(nn, cc, r.start as int, r.end as int, id as int));
            assert(doc_text(*self, child as int) == doc_text(b1, child as int));
            assert(range_shape(nn, cc, r.start as int, r.start as int, id as int) =~= Seq::<Piece>::empty());
            assert(doc_layout(*self, id as int) == range_shape(nn, cc, r.start as int, r.end as int, id as int));
            assert(doc_layout(*self, child as int) == doc_layout(b1, child as int));
        }
        id
    }

    /// A group: laid flat iff it fits and contains no forced break. Its
    /// `forced_break` flag is read off the child's precomputed flag in O(1).
    pub fn group(&mut self, child: NodeId) -> (id: NodeId)
        requires
            old(self).wf(),
            child < old(self).nodes_spec().len(),
        ensures
            final(self).wf(),
            pushed(
                old(self).nodes_spec(),
                final(self).nodes_spec(),
                DocNode::Group {
                    child: Range {
                        start: old(self).cids_spec().len() as u32,
                        end: (old(self).cids_spec().len() + 1) as u32,
                    },
                    forced_break: node_forced(old(self).nodes_spec(), old(self).cids_spec(), child as int),
                },
                id,
            ),
            final(self).cids_spec().len() >= old(self).cids_spec().len(),
            id == old(self).nodes_spec().len() ==> final(self).cids_spec()[old(self).cids_spec().len() as int] == child,
            settled(*old(self), *final(self)),
            room_spec(*old(self), 1) ==> !final(self).full_spec() && id == old(self).nodes_spec().len(),
            !final(self).full_spec() ==> id == old(self).nodes_spec().len() && doc_text(*final(self), id as int)
                == doc_text(*old(self), child as int),
            !final(self).full_spec() ==> doc_layout(*final(self), id as int) == doc_layout(*old(self), child as int),
    {
        if self.full || !self.room(1) {
            self.full = true;
            return self.fallback();
        }
        let forced_break = self.forced[child as usize];
        let ghost n1 = self.nodes@;
        let ghost c1 = self.child_ids@;
        let items = [child];
        let r = self.push_children(&items);
        let ghost b1 = *self;
        proof {
            let c2 = self.child_ids@;
            assert(c2[r.start as int] == child);
            assert(n1 =~= n1.subrange(0, n1.len() as int));
            assert(c1 =~= c2.subrange(0, c1.len() as int));
            lemma_node_forced_frame(n1, c1, n1, c2, child as int);
            assert(range_forced(n1, c2, r.start as int, r.end as int - 1, n1.len() as int) == false);
            assert(range_forced(n1, c2, r.start as int, r.end as int, n1.len() as int) == node_forced(n1, c2, child as int));
        }
        let id = self.push(DocNode::Group { child: r, forced_break });
        proof {
            let nn = self.nodes@;
            let cc = self.child_ids@;
            assert(range_content(nn, cc, r.start as int, r.start as int, id as int) =~= Seq::<Span>::empty());
            assert(doc_text(*self, id as int) == range_content(nn, cc, r.start as int, r.end as int, id as int));
            assert(doc_text(*self, child as int) == doc_text(b1, child as int));
            assert(range_shape(nn, cc, r.start as int, r.start as int, id as int) =~= Seq::<Piece>::empty());
            assert(doc_layout(*self, id as int) == range_shape(nn, cc, r.start as int, r.end as int, id as int));
            assert(doc_layout(*self, child as int) == doc_layout(b1, child as int));
        }
        id
    }

    /// Concatenate `items`, in order: `nil` for none, the sole element for one,
    /// otherwise a `Sequence` over them.
    pub fn seq(&mut self, items: &[NodeId]) -> (id: NodeId)
        requires
            old(self).wf(),
            forall|k: int| 0 <= k < items@.len() ==> (#[trigger] items@[k]) < old(self).nodes_spec().len(),
        ensures
            final(self).wf(),
            items@.len() == 0 ==> pushed(old(self).nodes_spec(), final(self).nodes_spec(), DocNode::Nil, id),
            items@.len() == 1 ==> id == items@[0] && final(self).nodes_spec() == old(self).nodes_spec()
                && final(self).cids_spec() == old(self).cids_spec() && final(self).full_spec() == old(
                self,
            ).full_spec(),
            items@.len() >= 2 ==> pushed(
                old(self).nodes_spec(),
                final(self).nodes_spec(),
                DocNode::Sequence(Range {
                    start: old(self).cids_spec().len() as u32,
                    end: (old(self).cids_spec().len() + items@.len()) as u32,
                }),
                id,
            ),
            final(self).cids_spec().len() >= old(self).cids_spec().len(),
            items@.len() >= 2 && id == old(self).nodes_spec().len() ==> final(self).cids_spec().subrange(
                old(self).cids_spec().len() as int,
                (old(self).cids_spec().len() + items@.len()) as int,
            ) == items@,
            settled(*old(self), *final(self)),
            items@.len() >= 2 && room_spec(*old(self), items@.len() as int) ==> !final(self).full_spec() && id
                == old(self).nodes_spec().len(),
            !final(self).full_spec() ==> doc_text(*final(self), id as int) == items_text(*old(self), items@),
            !final(self).full_spec() ==> doc_layout(*final(self), id as int) == items_layout(*old(self), items@),
    {
        if items.len() == 0 {
            let id = self.nil();
            proof {
                assert(items_text(*old(self), items@) =~= Seq::<Span>::empty());
                assert(items_layout(*old(self), items@) =~= Seq::<Piece>::empty());
            }
            return id;
        }
        if items.len() == 1 {
            proof {
                assert(items@.drop_last() =~= Seq::<NodeId>::empty());
                assert(items@.last() == items@[0]);
                assert(items_text(*old(self), items@) == items_text(*old(self), items@.drop_last()) + doc_text(
                    *old(self),
                    items@[0] as int,
                ));
                assert(items_text(*old(self), items@) =~= doc_text(*old(self), items@[0] as int));
                assert(items_layout(*old(self), items@) == items_layout(*old(self), items@.drop_last()) + doc_layout(
                    *old(self),
                    items@[0] as int,
                ));
                assert(items_layout(*old(self), items@) =~= doc_layout(*old(self), items@[0] as int));
            }
            return items[0];
        }
        if self.full || !self.room(items.len()) {
            assert(items@[0] < self.nodes@.len());
            self.full = true;
            return self.fallback();
        }
        let ghost c1 = self.child_ids@;
        let ghost b0 = *self;
        let r = self.push_children(items);
        assert(self.child_ids@.subrange(c1.len() as int, (c1.len() + items@.len()) as int) =~= items@);
        let ghost b1 = *self;
        let id = self.push(DocNode::Sequence(r));
        proof {
            let nn = self.nodes@;
            let cc = self.child_ids@;
            assert(cc.subrange(r.start as int, r.start + items@.len()) =~= items@);
            lemma_range_content_items(nn, cc, r.start as int, items@, id as int);
            lemma_range_shape_items(nn, cc, r.start as int, items@, id as int);
            lemma_items_stable(b0, *self, items@);
        }
        id
    }

    /// Finish the build, naming `root` as the document's root node.
    pub fn finish(self, root: NodeId) -> (d: Doc)
        requires
            self.wf(),
            root < self.nodes_spec().len(),
        ensures
            d.wf(),
            d.nodes_spec() == self.nodes_spec(),
            d.cids_spec() == self.cids_spec(),
            d.root_spec() == root,
    {
        Doc { nodes: self.nodes, child_ids: self.child_ids, root }
    }
}

/// Splitting one element off the top of a range.
pub proof fn lemma_range_forced_split(nodes: Seq<DocNode>, cids: Seq<NodeId>, j: int, hi: int, bound: int)
    requires
        0 <= j < hi <= cids.len(),
        forall|k: int| j <= k < hi ==> 0 <= #[trigger] cids[k] < bound,
    ensures
        range_forced(nodes, cids, j, hi, bound) == (node_forced(nodes, cids, cids[j] as int) || range_forced(
            nodes,
            cids,
            j + 1,
            hi,
            bound,
        )),
    decreases hi - j,
{
    assert(cids[hi - 1] < bound);
    if j + 1 < hi {
        lemma_range_forced_split(nodes, cids, j, hi - 1, bound);
        assert(range_forced(nodes, cids, j + 1, hi, bound) == ((0 <= cids[hi - 1] < bound && node_forced(
            nodes,
            cids,
            cids[hi - 1] as int,
        )) || range_forced(nodes, cids, j + 1, hi - 1, bound)));
    } else {
        assert(range_forced(nodes, cids, j, j, bound) == false);
        assert(range_forced(nodes, cids, j + 1, hi, bound) == false);
    }
}

} // verus!
