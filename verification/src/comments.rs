//! The comment pre-pass: a pure, total, single-valued (not injective)
//! classification of every trivia comment to exactly one anchor node, in one
//! source-order sweep per node. The emitter filters comments out of its own walk
//! and re-injects them from this table at their anchors.
//!
//! Trivia is exactly `line_comment` (`% …`) and `block_comment` (`%* … *%`);
//! a `doc_comment` is a statement, not trivia, and is never attached.
//!
//! Each comment child of a node yields exactly one entry: `trailing` on the
//! preceding non-comment sibling when it starts on that sibling's last row;
//! otherwise it waits as pending and is drained once, to `leading` on the next
//! leading-anchor sibling (the contiguous run just above it) or to `dangling` on
//! the enclosing node (cut off by a blank line, at a boundary token, or at the
//! end of the children).

use crate::cst::{child_of, clingo_kind_id, clingo_kind_id_spec, layout_wf, lemma_children_in_bounds, Cst, CstNode};
use vstd::multiset::Multiset;
use vstd::prelude::*;

verus! {

/// Which trivia comment kind a node is.
#[derive(Clone, Copy, Debug, PartialEq, Eq, Structural)]
pub enum CommentKind {
    /// `% …` — runs to end of line.
    Line,
    /// `%* … *%` — may span lines.
    Block,
}

/// One attached trivia comment: its byte range, and whether it is a block
/// comment spanning lines (re-emitted verbatim, never re-indented).
#[derive(Clone, Copy, Debug, PartialEq, Eq, Structural)]
pub struct Trivia {
    pub start: usize,
    pub end: usize,
    pub multiline: bool,
}

/// The comments attached to one anchor node, by slot, each in source order.
#[derive(Clone, Debug)]
pub struct AnchorComments {
    pub leading: Vec<Trivia>,
    pub trailing: Vec<Trivia>,
    pub dangling: Vec<Trivia>,
}

/// Every trivia comment classified to one anchor, indexed by node.
pub struct Attachments {
    pub by_anchor: Vec<AnchorComments>,
}

/// The number of comments one anchor holds.
pub open spec fn anchor_total(a: AnchorComments) -> nat {
    a.leading@.len() + a.trailing@.len() + a.dangling@.len()
}

/// The number of comments held over the anchors `s[0..n)`.
pub open spec fn total_upto(s: Seq<AnchorComments>, n: int) -> nat
    decreases n,
{
    if n <= 0 {
        0
    } else {
        total_upto(s, n - 1) + anchor_total(s[n - 1])
    }
}

/// The number of comments held over all anchors.
pub open spec fn total(s: Seq<AnchorComments>) -> nat {
    total_upto(s, s.len() as int)
}

/// Replacing one anchor changes the total by the difference of its counts.
pub proof fn lemma_total_update(s: Seq<AnchorComments>, n: int, i: int, x: AnchorComments)
    requires
        0 <= i < s.len(),
        0 <= n <= s.len(),
    ensures
        i < n ==> total_upto(s.update(i, x), n) + anchor_total(s[i]) == total_upto(s, n) + anchor_total(x),
        i >= n ==> total_upto(s.update(i, x), n) == total_upto(s, n),
    decreases n,
{
    if n > 0 {
        lemma_total_update(s, n - 1, i, x);
    }
}

/// A node's byte span, the identity of a comment.
pub open spec fn span_of(n: CstNode) -> (usize, usize) {
    (n.start, n.end)
}

/// The byte spans of a run of attached comments.
pub open spec fn trivia_bag(s: Seq<Trivia>) -> Multiset<(usize, usize)>
    decreases s.len(),
{
    if s.len() == 0 {
        Multiset::empty()
    } else {
        trivia_bag(s.drop_last()).insert((s.last().start, s.last().end))
    }
}

/// The byte spans of the comments one anchor holds, over its three slots.
pub open spec fn anchor_bag(a: AnchorComments) -> Multiset<(usize, usize)> {
    trivia_bag(a.leading@).add(trivia_bag(a.trailing@)).add(trivia_bag(a.dangling@))
}

/// The byte spans of the comments held over the anchors `s[0..n)`.
pub open spec fn bag_upto(s: Seq<AnchorComments>, n: int) -> Multiset<(usize, usize)>
    decreases n,
{
    if n <= 0 {
        Multiset::empty()
    } else {
        bag_upto(s, n - 1).add(anchor_bag(s[n - 1]))
    }
}

/// The byte spans of every attached comment, with multiplicity.
pub open spec fn attached(s: Seq<AnchorComments>) -> Multiset<(usize, usize)> {
    bag_upto(s, s.len() as int)
}

/// Replacing one anchor swaps its comments in the bag.
pub proof fn lemma_bag_update(s: Seq<AnchorComments>, n: int, i: int, x: AnchorComments)
    requires
        0 <= i < s.len(),
        0 <= n <= s.len(),
    ensures
        i < n ==> bag_upto(s.update(i, x), n).add(anchor_bag(s[i])) == bag_upto(s, n).add(anchor_bag(x)),
        i >= n ==> bag_upto(s.update(i, x), n) == bag_upto(s, n),
    decreases n,
{
    if n > 0 {
        lemma_bag_update(s, n - 1, i, x);
        if i < n - 1 {
            let u = s.update(i, x);
            assert(u[n - 1] == s[n - 1]);
            assert(bag_upto(u, n) == bag_upto(u, n - 1).add(anchor_bag(s[n - 1])));
            assert(bag_upto(s, n) == bag_upto(s, n - 1).add(anchor_bag(s[n - 1])));
            assert forall|v: (usize, usize)| #[trigger] bag_upto(u, n).add(anchor_bag(s[i])).count(v) == bag_upto(
                s,
                n,
            ).add(anchor_bag(x)).count(v) by {
                assert(bag_upto(u, n - 1).add(anchor_bag(s[i])).count(v) == bag_upto(s, n - 1).add(
                    anchor_bag(x),
                ).count(v));
            }
            assert(bag_upto(u, n).add(anchor_bag(s[i])) =~= bag_upto(s, n).add(anchor_bag(x)));
        } else if i == n - 1 {
            assert(bag_upto(s.update(i, x), n - 1) == bag_upto(s, n - 1));
            assert(bag_upto(s.update(i, x), n).add(anchor_bag(s[i])) =~= bag_upto(s, n).add(anchor_bag(x)));
        }
    }
}

/// Two sequences agreeing on a prefix agree on its bag.
pub proof fn lemma_prefix_bag(a: Seq<AnchorComments>, b: Seq<AnchorComments>, n: int)
    requires
        0 <= n <= a.len(),
        n <= b.len(),
        forall|k: int| 0 <= k < n ==> #[trigger] a[k] == b[k],
    ensures
        bag_upto(a, n) == bag_upto(b, n),
    decreases n,
{
    if n > 0 {
        lemma_prefix_bag(a, b, n - 1);
    }
}

impl Attachments {
    /// No anchor holds anything yet.
    pub fn empty(n: usize) -> (at: Self)
        ensures
            at.by_anchor@.len() == n,
            total(at.by_anchor@) == 0,
            attached(at.by_anchor@) == Multiset::<(usize, usize)>::empty(),
    {
        let mut v: Vec<AnchorComments> = Vec::new();
        let mut i: usize = 0;
        while i < n
            invariant
                i <= n,
                v@.len() == i,
                total(v@) == 0,
                attached(v@) == Multiset::<(usize, usize)>::empty(),
            decreases n - i,
        {
            let ghost before = v@;
            v.push(AnchorComments { leading: Vec::new(), trailing: Vec::new(), dangling: Vec::new() });
            assert(v@.drop_last() =~= before);
            assert(total_upto(v@, i as int) == total_upto(before, i as int)) by {
                lemma_prefix_total(before, v@, i as int);
            }
            assert(bag_upto(v@, i as int) == bag_upto(before, i as int)) by {
                lemma_prefix_bag(before, v@, i as int);
            }
            proof {
                let a = v@[i as int];
                assert(trivia_bag(a.leading@) =~= Multiset::<(usize, usize)>::empty());
                assert(trivia_bag(a.trailing@) =~= Multiset::<(usize, usize)>::empty());
                assert(trivia_bag(a.dangling@) =~= Multiset::<(usize, usize)>::empty());
                assert(anchor_bag(a) =~= Multiset::<(usize, usize)>::empty());
                assert(attached(v@) =~= Multiset::<(usize, usize)>::empty());
            }
            i = i + 1;
        }
        Attachments { by_anchor: v }
    }

    /// Record `t` in slot `slot` (0 leading, 1 trailing, 2 dangling) of anchor `id`.
    pub fn push_at(&mut self, id: usize, slot: u8, t: Trivia)
        requires
            id < old(self).by_anchor@.len(),
        ensures
            final(self).by_anchor@.len() == old(self).by_anchor@.len(),
            total(final(self).by_anchor@) == total(old(self).by_anchor@) + 1,
            attached(final(self).by_anchor@) == attached(old(self).by_anchor@).insert((t.start, t.end)),
    {
        let ghost s = self.by_anchor@;
        let ghost a0 = s[id as int];
        if slot == 0 {
            self.by_anchor[id].leading.push(t);
        } else if slot == 1 {
            self.by_anchor[id].trailing.push(t);
        } else {
            self.by_anchor[id].dangling.push(t);
        }
        proof {
            let a1 = self.by_anchor@[id as int];
            let sp = (t.start, t.end);
            lemma_total_update(s, s.len() as int, id as int, a1);
            lemma_bag_update(s, s.len() as int, id as int, a1);
            assert(self.by_anchor@ =~= s.update(id as int, a1));
            if slot == 0 {
                assert(a1.leading@.drop_last() =~= a0.leading@);
            } else if slot == 1 {
                assert(a1.trailing@.drop_last() =~= a0.trailing@);
            } else {
                assert(a1.dangling@.drop_last() =~= a0.dangling@);
            }
            assert(anchor_bag(a1) =~= anchor_bag(a0).insert(sp));
            let b0 = attached(s);
            let b1 = attached(self.by_anchor@);
            assert(b1.add(anchor_bag(a0)) == b0.add(anchor_bag(a1)));
            assert forall|v: (usize, usize)| #[trigger] b1.count(v) == b0.insert(sp).count(v) by {
                assert(b1.add(anchor_bag(a0)).count(v) == b0.add(anchor_bag(a1)).count(v));
            }
            assert(b1 =~= b0.insert(sp));
        }
    }
}

/// Two sequences agreeing on a prefix agree on its total.
pub proof fn lemma_prefix_total(a: Seq<AnchorComments>, b: Seq<AnchorComments>, n: int)
    requires
        0 <= n <= a.len(),
        n <= b.len(),
        forall|k: int| 0 <= k < n ==> #[trigger] a[k] == b[k],
    ensures
        total_upto(a, n) == total_upto(b, n),
    decreases n,
{
    if n > 0 {
        lemma_prefix_total(a, b, n - 1);
    }
}


/// The kind ids the classification dispatches on: the two trivia kinds, the
/// boundary tokens `)` `]` `}` `.`, the `|` bar and the `abs` node.
pub struct ClassifyIds {
    pub line: u16,
    pub block: u16,
    pub rparen: u16,
    pub rbracket: u16,
    pub rbrace: u16,
    pub dot: u16,
    pub pipe: u16,
    pub abs: u16,
}

/// The grammar's id for `line_comment`.
pub open spec fn line_kind() -> u16 {
    clingo_kind_id_spec("line_comment"@, true)
}

/// The grammar's id for `block_comment`.
pub open spec fn block_kind() -> u16 {
    clingo_kind_id_spec("block_comment"@, true)
}

/// Whether a node of kind `kind` is a trivia comment, given the two trivia ids.
pub open spec fn is_trivia(kind: u16, line: u16, block: u16) -> bool {
    kind == line || kind == block
}

/// The number of trivia comments among the nodes `ns[lo..hi)`.
pub open spec fn comment_count(ns: Seq<CstNode>, line: u16, block: u16, lo: int, hi: int) -> nat
    decreases hi - lo,
{
    if hi <= lo {
        0
    } else {
        comment_count(ns, line, block, lo, hi - 1) + if is_trivia(ns[hi - 1].kind, line, block) {
            1nat
        } else {
            0nat
        }
    }
}

/// The number of trivia comments in a parse-tree model (every node but the root
/// is some node's child).
pub open spec fn trivia_in(ns: Seq<CstNode>) -> nat {
    comment_count(ns, line_kind(), block_kind(), 1, ns.len() as int)
}

/// The byte spans of the trivia comments among the nodes `ns[lo..hi)`.
pub open spec fn comment_bag(ns: Seq<CstNode>, line: u16, block: u16, lo: int, hi: int) -> Multiset<(usize, usize)>
    decreases hi - lo,
{
    if hi <= lo {
        Multiset::empty()
    } else {
        comment_bag(ns, line, block, lo, hi - 1).add(
            if is_trivia(ns[hi - 1].kind, line, block) {
                Multiset::singleton(span_of(ns[hi - 1]))
            } else {
                Multiset::empty()
            },
        )
    }
}

/// The byte spans of the trivia comments of a parse-tree model, with
/// multiplicity.
pub open spec fn trivia_spans(ns: Seq<CstNode>) -> Multiset<(usize, usize)> {
    comment_bag(ns, line_kind(), block_kind(), 1, ns.len() as int)
}

/// The bags of adjacent ranges add up.
pub proof fn lemma_bag_split(ns: Seq<CstNode>, line: u16, block: u16, lo: int, mid: int, hi: int)
    requires
        lo <= mid <= hi,
    ensures
        comment_bag(ns, line, block, lo, mid).add(comment_bag(ns, line, block, mid, hi)) == comment_bag(
            ns,
            line,
            block,
            lo,
            hi,
        ),
    decreases hi - mid,
{
    if mid < hi {
        lemma_bag_split(ns, line, block, lo, mid, hi - 1);
        assert(comment_bag(ns, line, block, lo, mid).add(comment_bag(ns, line, block, mid, hi)) =~= comment_bag(
            ns,
            line,
            block,
            lo,
            hi,
        ));
    } else {
        assert(comment_bag(ns, line, block, mid, hi) =~= Multiset::<(usize, usize)>::empty());
        assert(comment_bag(ns, line, block, lo, mid).add(comment_bag(ns, line, block, mid, hi)) =~= comment_bag(
            ns,
            line,
            block,
            lo,
            hi,
        ));
    }
}

/// The byte spans of the pending comments (node indices into `ns`).
pub open spec fn pending_bag(ns: Seq<CstNode>, p: Seq<(usize, CommentKind)>) -> Multiset<(usize, usize)>
    decreases p.len(),
{
    if p.len() == 0 {
        Multiset::empty()
    } else {
        pending_bag(ns, p.drop_last()).insert(span_of(ns[p.last().0 as int]))
    }
}

/// Counting over adjacent ranges adds up.
pub proof fn lemma_count_split(ns: Seq<CstNode>, line: u16, block: u16, lo: int, mid: int, hi: int)
    requires
        lo <= mid <= hi,
    ensures
        comment_count(ns, line, block, lo, mid) + comment_count(ns, line, block, mid, hi) == comment_count(
            ns,
            line,
            block,
            lo,
            hi,
        ),
    decreases hi - mid,
{
    if mid < hi {
        lemma_count_split(ns, line, block, lo, mid, hi - 1);
    }
}

impl ClassifyIds {
    /// Resolve the ids from the vendored grammar.
    pub fn resolve() -> (ids: Self)
        ensures
            ids.line == line_kind(),
            ids.block == block_kind(),
            ids.rparen == clingo_kind_id_spec(")"@, false),
            ids.rbracket == clingo_kind_id_spec("]"@, false),
            ids.rbrace == clingo_kind_id_spec("}"@, false),
            ids.dot == clingo_kind_id_spec("."@, false),
            ids.pipe == clingo_kind_id_spec("|"@, false),
            ids.abs == clingo_kind_id_spec("abs"@, true),
    {
        ClassifyIds {
            line: clingo_kind_id("line_comment", true),
            block: clingo_kind_id("block_comment", true),
            rparen: clingo_kind_id(")", false),
            rbracket: clingo_kind_id("]", false),
            rbrace: clingo_kind_id("}", false),
            dot: clingo_kind_id(".", false),
            pipe: clingo_kind_id("|", false),
            abs: clingo_kind_id("abs", true),
        }
    }

    /// `Some(kind)` iff `n` is a trivia comment.
    pub fn kind_of(&self, n: CstNode) -> (r: Option<CommentKind>)
        ensures
            r is Some <==> is_trivia(n.kind, self.line, self.block),
            r == Some(CommentKind::Line) <==> n.kind == self.line,
    {
        if n.kind == self.line {
            Some(CommentKind::Line)
        } else if n.kind == self.block {
            Some(CommentKind::Block)
        } else {
            None
        }
    }

    /// A boundary a pending comment does not drain past: a closer `)` `]` `}`
    /// or the statement terminator `.`.
    pub fn is_boundary(&self, n: CstNode) -> (r: bool)
        ensures
            r == (n.kind == self.rparen || n.kind == self.rbracket || n.kind == self.rbrace || n.kind == self.dot),
    {
        n.kind == self.rparen || n.kind == self.rbracket || n.kind == self.rbrace || n.kind == self.dot
    }

    /// The `|` bar.
    pub fn is_pipe(&self, n: CstNode) -> (r: bool)
        ensures
            r == (n.kind == self.pipe),
    {
        n.kind == self.pipe
    }

    /// An `abs` node (`|t|`).
    pub fn is_abs(&self, n: CstNode) -> (r: bool)
        ensures
            r == (n.kind == self.abs),
    {
        n.kind == self.abs
    }
}

/// Whether `s[a..b)` (clipped to `s`) holds a newline byte.
pub open spec fn has_newline(s: Seq<u8>, a: int, b: int) -> bool {
    exists|k: int| a <= k < b && 0 <= k < s.len() && s[k] == 10u8
}

/// Whether the bytes `s[a..b)` (clipped to `s`) hold a newline.
pub fn contains_newline(s: &[u8], a: usize, b: usize) -> (r: bool)
    ensures
        r == has_newline(s@, a as int, b as int),
{
    let hi = if b < s.len() { b } else { s.len() };
    let mut k = a;
    while k < hi
        invariant
            hi <= s@.len(),
            hi <= b,
            a <= k,
            forall|q: int| a <= q < k && 0 <= q < s@.len() ==> s@[q] != 10u8,
        decreases hi - k,
    {
        if s[k] == 10u8 {
            assert(s@[k as int] == 10u8);
            return true;
        }
        k = k + 1;
    }
    false
}

/// The trivia record of one comment node: its byte range, and the multi-line
/// flag set only for a block comment whose span holds a newline.
pub fn trivia_of(n: CstNode, kind: CommentKind, src: &[u8]) -> (t: Trivia)
    ensures
        t.start == n.start,
        t.end == n.end,
        t.multiline == (kind == CommentKind::Block && has_newline(src@, n.start as int, n.end as int)),
{
    let multiline = match kind {
        CommentKind::Block => contains_newline(src, n.start, n.end),
        CommentKind::Line => false,
    };
    Trivia { start: n.start, end: n.end, multiline }
}

/// Resolve the pending comments now that their following leading anchor `next`
/// is known: the contiguous run immediately above `next` (no blank row between
/// any two of them, or between the last and `next`) leads `next`; the first blank
/// gap, scanning upward, detaches that comment and all above it to the
/// enclosing node's `dangling`.
fn drain_leading(
    pending: &mut Vec<(usize, CommentKind)>,
    next: usize,
    enclosing: usize,
    cst: &Cst,
    src: &[u8],
    at: &mut Attachments,
)
    requires
        next < cst.nodes@.len(),
        enclosing < cst.nodes@.len(),
        old(at).by_anchor@.len() == cst.nodes@.len(),
        forall|q: int| 0 <= q < old(pending)@.len() ==> (#[trigger] old(pending)@[q]).0 < cst.nodes@.len(),
    ensures
        final(pending)@.len() == 0,
        final(at).by_anchor@.len() == cst.nodes@.len(),
        total(final(at).by_anchor@) == total(old(at).by_anchor@) + old(pending)@.len(),
        attached(final(at).by_anchor@) == attached(old(at).by_anchor@).add(pending_bag(cst.nodes@, old(pending)@)),
{
    let mut reach = cst.nodes[next].start_row;
    let mut split = pending.len();
    let mut k = pending.len();
    while k > 0
        invariant
            k <= pending@.len(),
            split <= pending@.len(),
            forall|q: int| 0 <= q < pending@.len() ==> (#[trigger] pending@[q]).0 < cst.nodes@.len(),
        decreases k,
    {
        let (c, _) = pending[k - 1];
        let cn = cst.nodes[c];
        if reach <= cn.end_row || reach - cn.end_row <= 1 {
            reach = cn.start_row;
            split = k - 1;
            k = k - 1;
        } else {
            break;
        }
    }
    let ghost t0 = total(at.by_anchor@);
    let ghost a0 = attached(at.by_anchor@);
    assert(pending_bag(cst.nodes@, pending@.subrange(0, 0)) =~= Multiset::<(usize, usize)>::empty());
    assert(a0.add(Multiset::<(usize, usize)>::empty()) =~= a0);
    let mut q: usize = 0;
    while q < pending.len()
        invariant
            split <= pending@.len(),
            q <= pending@.len(),
            pending@ == old(pending)@,
            at.by_anchor@.len() == cst.nodes@.len(),
            total(at.by_anchor@) == t0 + q,
            attached(at.by_anchor@) == a0.add(pending_bag(cst.nodes@, pending@.subrange(0, q as int))),
            next < cst.nodes@.len(),
            enclosing < cst.nodes@.len(),
            forall|r: int| 0 <= r < pending@.len() ==> (#[trigger] pending@[r]).0 < cst.nodes@.len(),
        decreases pending@.len() - q,
    {
        let (c, kind) = pending[q];
        let t = trivia_of(cst.nodes[c], kind, src);
        let ghost before = attached(at.by_anchor@);
        if q < split {
            at.push_at(enclosing, 2, t);
        } else {
            at.push_at(next, 0, t);
        }
        proof {
            let ns = cst.nodes@;
            assert(pending@.subrange(0, q + 1).drop_last() =~= pending@.subrange(0, q as int));
            assert(pending@.subrange(0, q + 1).last() == pending@[q as int]);
            assert(pending_bag(ns, pending@.subrange(0, q + 1)) == pending_bag(ns, pending@.subrange(0, q as int)).insert(
                span_of(ns[c as int]),
            ));
            assert(attached(at.by_anchor@) =~= a0.add(pending_bag(ns, pending@.subrange(0, q + 1))));
        }
        q = q + 1;
    }
    assert(pending@.subrange(0, pending@.len() as int) =~= pending@);
    pending.clear();
}

/// Drain whatever remains pending to the enclosing node's `dangling`, in order.
fn flush_dangling(
    pending: &mut Vec<(usize, CommentKind)>,
    enclosing: usize,
    cst: &Cst,
    src: &[u8],
    at: &mut Attachments,
)
    requires
        enclosing < cst.nodes@.len(),
        old(at).by_anchor@.len() == cst.nodes@.len(),
        forall|q: int| 0 <= q < old(pending)@.len() ==> (#[trigger] old(pending)@[q]).0 < cst.nodes@.len(),
    ensures
        final(pending)@.len() == 0,
        final(at).by_anchor@.len() == cst.nodes@.len(),
        total(final(at).by_anchor@) == total(old(at).by_anchor@) + old(pending)@.len(),
        attached(final(at).by_anchor@) == attached(old(at).by_anchor@).add(pending_bag(cst.nodes@, old(pending)@)),
{
    let ghost t0 = total(at.by_anchor@);
    let ghost a0 = attached(at.by_anchor@);
    assert(pending_bag(cst.nodes@, pending@.subrange(0, 0)) =~= Multiset::<(usize, usize)>::empty());
    assert(a0.add(Multiset::<(usize, usize)>::empty()) =~= a0);
    let mut q: usize = 0;
    while q < pending.len()
        invariant
            q <= pending@.len(),
            pending@ == old(pending)@,
            at.by_anchor@.len() == cst.nodes@.len(),
            total(at.by_anchor@) == t0 + q,
            attached(at.by_anchor@) == a0.add(pending_bag(cst.nodes@, pending@.subrange(0, q as int))),
            enclosing < cst.nodes@.len(),
            forall|r: int| 0 <= r < pending@.len() ==> (#[trigger] pending@[r]).0 < cst.nodes@.len(),
        decreases pending@.len() - q,
    {
        let (c, kind) = pending[q];
        let t = trivia_of(cst.nodes[c], kind, src);
        at.push_at(enclosing, 2, t);
        proof {
            let ns = cst.nodes@;
            assert(pending@.subrange(0, q + 1).drop_last() =~= pending@.subrange(0, q as int));
            assert(pending@.subrange(0, q + 1).last() == pending@[q as int]);
            assert(pending_bag(ns, pending@.subrange(0, q + 1)) == pending_bag(ns, pending@.subrange(0, q as int)).insert(
                span_of(ns[c as int]),
            ));
            assert(attached(at.by_anchor@) =~= a0.add(pending_bag(ns, pending@.subrange(0, q + 1))));
        }
        q = q + 1;
    }
    assert(pending@.subrange(0, pending@.len() as int) =~= pending@);
    pending.clear();
}

/// Classify node `i`'s direct comment children in one sweep over its children:
/// trailing on the preceding non-comment sibling when on its last row, else
/// pending until the next leading-anchor sibling (every non-comment,
/// non-boundary sibling, except a `|` delimiting an `abs`) or a boundary / the
/// end of the children.
fn classify_children(ids: &ClassifyIds, cst: &Cst, i: usize, src: &[u8], at: &mut Attachments)
    requires
        cst.wf(),
        i < cst.nodes@.len(),
        old(at).by_anchor@.len() == cst.nodes@.len(),
    ensures
        final(at).by_anchor@.len() == cst.nodes@.len(),
        total(final(at).by_anchor@) == total(old(at).by_anchor@) + comment_count(
            cst.nodes@,
            ids.line,
            ids.block,
            cst.nodes@[i as int].first as int,
            cst.nodes@[i as int].first + cst.nodes@[i as int].count,
        ),
        attached(final(at).by_anchor@) == attached(old(at).by_anchor@).add(
            comment_bag(
                cst.nodes@,
                ids.line,
                ids.block,
                cst.nodes@[i as int].first as int,
                cst.nodes@[i as int].first + cst.nodes@[i as int].count,
            ),
        ),
{
    proof {
        lemma_children_in_bounds(cst.nodes@, i as int);
    }
    let n = cst.nodes[i];
    let ghost t0 = total(at.by_anchor@);
    let ghost b0 = attached(at.by_anchor@);
    let mut prev: Option<usize> = None;
    let mut pending: Vec<(usize, CommentKind)> = Vec::new();
    let mut j: usize = 0;
    while j < n.count
        invariant
            cst.wf(),
            n == cst.nodes@[i as int],
            i < cst.nodes@.len(),
            n.first + n.count <= cst.nodes@.len(),
            j <= n.count,
            at.by_anchor@.len() == cst.nodes@.len(),
            prev matches Some(p) ==> p < cst.nodes@.len(),
            forall|q: int| 0 <= q < pending@.len() ==> (#[trigger] pending@[q]).0 < cst.nodes@.len(),
            total(at.by_anchor@) + pending@.len() == t0 + comment_count(
                cst.nodes@,
                ids.line,
                ids.block,
                n.first as int,
                n.first + j,
            ),
            attached(at.by_anchor@).add(pending_bag(cst.nodes@, pending@)) == b0.add(
                comment_bag(cst.nodes@, ids.line, ids.block, n.first as int, n.first + j),
            ),
        decreases n.count - j,
    {
        let c = n.first + j;
        let child = cst.nodes[c];
        let ghost ns = cst.nodes@;
        let ghost cb = comment_bag(ns, ids.line, ids.block, n.first as int, n.first + j);
        let ghost a1 = attached(at.by_anchor@);
        let ghost p1 = pending@;
        assert(child == ns[c as int]);
        match ids.kind_of(child) {
            Some(kind) => {
                assert(comment_bag(ns, ids.line, ids.block, n.first as int, n.first + j + 1) == cb.add(
                    Multiset::singleton(span_of(child)),
                ));
                let trailing = match prev {
                    Some(p) => cst.nodes[p].end_row == child.start_row,
                    None => false,
                };
                if trailing {
                    let p = prev.unwrap();
                    at.push_at(p, 1, trivia_of(child, kind, src));
                    proof {
                        let lhs = attached(at.by_anchor@).add(pending_bag(ns, pending@));
                        let rhs = b0.add(comment_bag(ns, ids.line, ids.block, n.first as int, n.first + j + 1));
                        assert forall|v: (usize, usize)| #[trigger] lhs.count(v) == rhs.count(v) by {
                            assert(a1.add(pending_bag(ns, p1)).count(v) == b0.add(cb).count(v));
                        }
                        assert(lhs =~= rhs);
                    }
                } else {
                    pending.push((c, kind));
                    proof {
                        assert(pending@.drop_last() =~= p1);
                        assert(pending@.last() == (c, kind));
                        assert(pending_bag(ns, pending@) == pending_bag(ns, p1).insert(span_of(ns[c as int])));
                        let lhs = attached(at.by_anchor@).add(pending_bag(ns, pending@));
                        let rhs = b0.add(comment_bag(ns, ids.line, ids.block, n.first as int, n.first + j + 1));
                        assert forall|v: (usize, usize)| #[trigger] lhs.count(v) == rhs.count(v) by {
                            assert(a1.add(pending_bag(ns, p1)).count(v) == b0.add(cb).count(v));
                        }
                        assert(lhs =~= rhs);
                    }
                }
            },
            None => {
                assert(comment_bag(ns, ids.line, ids.block, n.first as int, n.first + j + 1) == cb.add(
                    Multiset::empty(),
                ));
                assert(cb.add(Multiset::empty()) =~= cb);
                if ids.is_boundary(child) {
                    flush_dangling(&mut pending, i, cst, src, at);
                    assert(pending_bag(ns, pending@) =~= Multiset::<(usize, usize)>::empty());
                    assert(attached(at.by_anchor@).add(pending_bag(ns, pending@)) =~= b0.add(
                        comment_bag(ns, ids.line, ids.block, n.first as int, n.first + j + 1),
                    ));
                } else if !(ids.is_pipe(child) && ids.is_abs(n)) {
                    drain_leading(&mut pending, c, i, cst, src, at);
                    assert(pending_bag(ns, pending@) =~= Multiset::<(usize, usize)>::empty());
                    assert(attached(at.by_anchor@).add(pending_bag(ns, pending@)) =~= b0.add(
                        comment_bag(ns, ids.line, ids.block, n.first as int, n.first + j + 1),
                    ));
                }
                prev = Some(c);
            },
        }
        j = j + 1;
    }
    let ghost p2 = pending@;
    flush_dangling(&mut pending, i, cst, src, at);
    proof {
        assert(pending_bag(cst.nodes@, pending@) =~= Multiset::<(usize, usize)>::empty());
    }
}

/// Classify every trivia comment of the tree. Each node's classification reads
/// only its own children, so the nodes are swept in index order.
fn collect(ids: &ClassifyIds, cst: &Cst, src: &[u8], at: &mut Attachments)
    requires
        cst.wf(),
        old(at).by_anchor@.len() == cst.nodes@.len(),
        total(old(at).by_anchor@) == 0,
        attached(old(at).by_anchor@) == Multiset::<(usize, usize)>::empty(),
    ensures
        final(at).by_anchor@.len() == cst.nodes@.len(),
        total(final(at).by_anchor@) == comment_count(cst.nodes@, ids.line, ids.block, 1, cst.nodes@.len() as int),
        attached(final(at).by_anchor@) == comment_bag(cst.nodes@, ids.line, ids.block, 1, cst.nodes@.len() as int),
{
    let mut i: usize = 0;
    while i < cst.nodes.len()
        invariant
            cst.wf(),
            i <= cst.nodes@.len(),
            at.by_anchor@.len() == cst.nodes@.len(),
            total(at.by_anchor@) == comment_count(
                cst.nodes@,
                ids.line,
                ids.block,
                1,
                if i == 0 {
                    1
                } else {
                    cst.nodes@[i - 1].first + cst.nodes@[i - 1].count
                },
            ),
            attached(at.by_anchor@) == comment_bag(
                cst.nodes@,
                ids.line,
                ids.block,
                1,
                if i == 0 {
                    1
                } else {
                    cst.nodes@[i - 1].first + cst.nodes@[i - 1].count
                },
            ),
        decreases cst.nodes@.len() - i,
    {
        proof {
            let ns = cst.nodes@;
            lemma_children_in_bounds(ns, i as int);
            if i > 0 {
                let k = i - 1;
                assert(ns[k + 1].first == ns[k].first + ns[k].count);
            }
            lemma_count_split(ns, ids.line, ids.block, 1, ns[i as int].first as int, ns[i as int].first + ns[i as int].count);
            lemma_bag_split(ns, ids.line, ids.block, 1, ns[i as int].first as int, ns[i as int].first + ns[i as int].count);
        }
        classify_children(ids, cst, i, src, at);
        i = i + 1;
    }
}

/// Classify every `line_comment` / `block_comment` of the tree to exactly one
/// anchor. Total and single-valued: the table holds every trivia comment of the
/// tree exactly once (by byte span, with multiplicity) and nothing else, and as
/// many entries as the tree has trivia comments.
pub fn attach(cst: &Cst, src: &str) -> (at: Attachments)
    requires
        cst.wf(),
    ensures
        at.by_anchor@.len() == cst.nodes@.len(),
        total(at.by_anchor@) == trivia_in(cst.nodes@),
        attached(at.by_anchor@) == trivia_spans(cst.nodes@),
{
    let ids = ClassifyIds::resolve();
    let mut at = Attachments::empty(cst.nodes.len());
    collect(&ids, cst, src.as_bytes(), &mut at);
    at
}

impl Attachments {
    /// The comments attached to node `id`.
    pub fn for_node(&self, id: usize) -> (a: &AnchorComments)
        requires
            id < self.by_anchor@.len(),
        ensures
            *a == self.by_anchor@[id as int],
    {
        &self.by_anchor[id]
    }

    /// The number of comments attached over all anchors and slots.
    pub fn total_attached(&self) -> (n: usize)
        requires
            total(self.by_anchor@) <= usize::MAX,
        ensures
            n == total(self.by_anchor@),
    {
        let mut n: usize = 0;
        let mut i: usize = 0;
        while i < self.by_anchor.len()
            invariant
                i <= self.by_anchor@.len(),
                n == total_upto(self.by_anchor@, i as int),
                total(self.by_anchor@) <= usize::MAX,
            decreases self.by_anchor@.len() - i,
        {
            proof {
                lemma_total_monotone(self.by_anchor@, i + 1, self.by_anchor@.len() as int);
            }
            let a = &self.by_anchor[i];
            n = n + a.leading.len() + a.trailing.len() + a.dangling.len();
            i = i + 1;
        }
        n
    }
}

/// Totals only grow along the anchors.
pub proof fn lemma_total_monotone(s: Seq<AnchorComments>, m: int, n: int)
    requires
        0 <= m <= n,
    ensures
        total_upto(s, m) <= total_upto(s, n),
    decreases n - m,
{
    if m < n {
        lemma_total_monotone(s, m, n - 1);
    }
}

} // verus!
