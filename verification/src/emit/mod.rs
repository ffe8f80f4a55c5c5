//! The CST → Doc emitter: identity plus whitespace redistribution. [`lower`]
//! lowers every node after its children (a reverse pass over the breadth-first
//! numbering, so no recursion and no depth bound): a per-construct rule
//! ([`constructs`]) assigns [`assemble`] roles and feeds the one generic
//! assembler; every leaf and every unhandled or `ERROR` / `MISSING` node emits a
//! verbatim whole-node span through the sole text path [`token`](token::token).

pub mod assemble;
pub mod constructs;
pub mod embedded;
pub mod reinject;
pub mod spacing;
pub mod token;

use crate::comments::{attach, Attachments};
use crate::cst::{read_source, Cst, FieldIds, KindIds};
use crate::doc::builder::Doc;
use crate::doc::render::render_core;
use crate::text::string_from_utf8;
use crate::doc::arena::{span_ok, spans_ok, DocNode, NodeId, Piece, Span};
use crate::doc::builder::{doc_layout, doc_text, items_layout, items_text, pushed, settled, DocBuilder};
use crate::style::Style;
use vstd::prelude::*;
use vstd::string::StringSliceAdditionalSpecFns;

verus! {

/// The emitter's read-only context.
pub struct Ctx<'a> {
    pub src: &'a str,
    pub bytes: &'a [u8],
    pub cst: &'a Cst,
    pub kinds: &'a KindIds,
    pub fields: &'a FieldIds,
    pub at: &'a Attachments,
    pub style: &'a Style,
}

impl<'a> Ctx<'a> {
    /// The context is coherent: a well-formed tree with one comment record per
    /// node, the byte view of the source, a valid style, and a source whose
    /// offsets fit the Doc's `u32` spans.
    pub open spec fn ok(&self) -> bool {
        &&& self.cst.wf()
        &&& self.at.by_anchor@.len() == self.cst.nodes@.len()
        &&& self.bytes@ == self.src.spec_bytes()
        &&& self.style.wf()
        &&& self.src.spec_bytes().len() <= u32::MAX
    }
}

/// A builder state the renderer accepts for `src`: well formed, and every text
/// node names a slice of `src`.
pub open spec fn doc_ok(b: DocBuilder, src: Seq<u8>) -> bool {
    b.wf() && spans_ok(b.nodes_spec(), src)
}

/// The builder only ever grows.
pub open spec fn grows(b0: DocBuilder, b1: DocBuilder) -> bool {
    b0.nodes_spec().len() <= b1.nodes_spec().len()
}

/// Every id in `ids` names a node of `b`.
pub open spec fn ids_ok(ids: Seq<NodeId>, b: DocBuilder) -> bool {
    forall|k: int| 0 <= k < ids.len() ==> #[trigger] ids[k] < b.nodes_spec().len()
}

/// The emitter's state invariant: a coherent context, a renderable builder, and
/// one already-lowered doc id per tree node.
pub open spec fn env_ok(ctx: &Ctx, built: Seq<NodeId>, b: DocBuilder) -> bool {
    &&& ctx.ok()
    &&& doc_ok(b, ctx.bytes@)
    &&& built.len() == ctx.cst.nodes@.len()
    &&& ids_ok(built, b)
}

/// A node carries no text, or names a slice of `src`.
pub open spec fn text_ok(n: DocNode, src: Seq<u8>) -> bool {
    match n {
        DocNode::Leaf(sp) => span_ok(sp, src),
        DocNode::Verbatim(sp) => span_ok(sp, src),
        _ => true,
    }
}

/// One builder step keeps the builder renderable and only grows it.
pub proof fn lemma_pushed_ok(b0: DocBuilder, b1: DocBuilder, n: DocNode, r: NodeId, src: Seq<u8>)
    requires
        doc_ok(b0, src),
        b1.wf(),
        pushed(b0.nodes_spec(), b1.nodes_spec(), n, r),
        text_ok(n, src),
    ensures
        doc_ok(b1, src),
        grows(b0, b1),
        r < b1.nodes_spec().len(),
{
    let s0 = b0.nodes_spec();
    let s1 = b1.nodes_spec();
    assert forall|i: int| 0 <= i < s1.len() implies match #[trigger] s1[i] {
        DocNode::Leaf(sp) => span_ok(sp, src),
        DocNode::Verbatim(sp) => span_ok(sp, src),
        _ => true,
    } by {
        if i < s0.len() {
            assert(s1[i] == s0[i]);
        }
    }
}

/// A single blank.
pub fn e_space(ctx: &Ctx, b: &mut DocBuilder) -> (id: NodeId)
    requires
        doc_ok(*old(b), ctx.bytes@),
    ensures
        doc_ok(*final(b), ctx.bytes@),
        grows(*old(b), *final(b)),
        id < final(b).nodes_spec().len(),        settled(*old(b), *final(b)),
        !final(b).full_spec() ==> doc_text(*final(b), id as int) == Seq::<Span>::empty(),
        !final(b).full_spec() ==> doc_layout(*final(b), id as int) == seq![Piece::Blank],
{
    let ghost b0 = *b;
    let id = b.space();
    proof {
        lemma_pushed_ok(b0, *b, DocNode::Space, id, ctx.bytes@);
    }
    id
}

/// A break: a space when flat.
pub fn e_line(ctx: &Ctx, b: &mut DocBuilder) -> (id: NodeId)
    requires
        doc_ok(*old(b), ctx.bytes@),
    ensures
        doc_ok(*final(b), ctx.bytes@),
        grows(*old(b), *final(b)),
        id < final(b).nodes_spec().len(),        settled(*old(b), *final(b)),
        !final(b).full_spec() ==> doc_text(*final(b), id as int) == Seq::<Span>::empty(),
        !final(b).full_spec() ==> doc_layout(*final(b), id as int) == Seq::<Piece>::empty(),
{
    let ghost b0 = *b;
    let id = b.line();
    proof {
        lemma_pushed_ok(b0, *b, DocNode::Line, id, ctx.bytes@);
    }
    id
}

/// A break: nothing when flat.
pub fn e_softline(ctx: &Ctx, b: &mut DocBuilder) -> (id: NodeId)
    requires
        doc_ok(*old(b), ctx.bytes@),
    ensures
        doc_ok(*final(b), ctx.bytes@),
        grows(*old(b), *final(b)),
        id < final(b).nodes_spec().len(),        settled(*old(b), *final(b)),
        !final(b).full_spec() ==> doc_text(*final(b), id as int) == Seq::<Span>::empty(),
        !final(b).full_spec() ==> doc_layout(*final(b), id as int) == Seq::<Piece>::empty(),
{
    let ghost b0 = *b;
    let id = b.softline();
    proof {
        lemma_pushed_ok(b0, *b, DocNode::SoftLine, id, ctx.bytes@);
    }
    id
}

/// A forced break.
pub fn e_hardline(ctx: &Ctx, b: &mut DocBuilder) -> (id: NodeId)
    requires
        doc_ok(*old(b), ctx.bytes@),
    ensures
        doc_ok(*final(b), ctx.bytes@),
        grows(*old(b), *final(b)),
        id < final(b).nodes_spec().len(),        settled(*old(b), *final(b)),
        !final(b).full_spec() ==> doc_text(*final(b), id as int) == Seq::<Span>::empty(),
        !final(b).full_spec() ==> doc_layout(*final(b), id as int) == Seq::<Piece>::empty(),
{
    let ghost b0 = *b;
    let id = b.hardline();
    proof {
        lemma_pushed_ok(b0, *b, DocNode::Hardline, id, ctx.bytes@);
    }
    id
}

/// A blank-line marker.
pub fn e_blank_line(ctx: &Ctx, b: &mut DocBuilder) -> (id: NodeId)
    requires
        doc_ok(*old(b), ctx.bytes@),
    ensures
        doc_ok(*final(b), ctx.bytes@),
        grows(*old(b), *final(b)),
        id < final(b).nodes_spec().len(),        settled(*old(b), *final(b)),
        !final(b).full_spec() ==> doc_text(*final(b), id as int) == Seq::<Span>::empty(),
        !final(b).full_spec() ==> doc_layout(*final(b), id as int) == Seq::<Piece>::empty(),
{
    let ghost b0 = *b;
    let id = b.blank_line();
    proof {
        lemma_pushed_ok(b0, *b, DocNode::BlankLine, id, ctx.bytes@);
    }
    id
}

/// The empty document.
pub fn e_nil(ctx: &Ctx, b: &mut DocBuilder) -> (id: NodeId)
    requires
        doc_ok(*old(b), ctx.bytes@),
    ensures
        doc_ok(*final(b), ctx.bytes@),
        grows(*old(b), *final(b)),
        id < final(b).nodes_spec().len(),        settled(*old(b), *final(b)),
        !final(b).full_spec() ==> doc_text(*final(b), id as int) == Seq::<Span>::empty(),
        !final(b).full_spec() ==> doc_layout(*final(b), id as int) == Seq::<Piece>::empty(),
{
    let ghost b0 = *b;
    let id = b.nil();
    proof {
        lemma_pushed_ok(b0, *b, DocNode::Nil, id, ctx.bytes@);
    }
    id
}

/// Indent `child` by `delta`.
pub fn e_nest(ctx: &Ctx, b: &mut DocBuilder, delta: i32, child: NodeId) -> (id: NodeId)
    requires
        doc_ok(*old(b), ctx.bytes@),
        child < old(b).nodes_spec().len(),
    ensures
        doc_ok(*final(b), ctx.bytes@),
        grows(*old(b), *final(b)),
        id < final(b).nodes_spec().len(),        settled(*old(b), *final(b)),
        !final(b).full_spec() ==> doc_text(*final(b), id as int) == doc_text(*old(b), child as int),
        !final(b).full_spec() ==> doc_layout(*final(b), id as int) == doc_layout(*old(b), child as int),
        !final(b).full_spec() ==> id == old(b).nodes_spec().len() && final(b).nodes_spec() == old(
            b,
        ).nodes_spec().push(
            DocNode::Nest {
                delta,
                child: crate::doc::arena::Range {
                    start: old(b).cids_spec().len() as u32,
                    end: (old(b).cids_spec().len() + 1) as u32,
                },
            },
        ),
        final(b).cids_spec().len() >= old(b).cids_spec().len(),
        !final(b).full_spec() ==> final(b).cids_spec()[old(b).cids_spec().len() as int] == child,
{
    let ghost b0 = *b;
    let id = b.nest(delta, child);
    proof {
        let n = DocNode::Nest {
            delta,
            child: crate::doc::arena::Range {
                start: b0.cids_spec().len() as u32,
                end: (b0.cids_spec().len() + 1) as u32,
            },
        };
        lemma_pushed_ok(b0, *b, n, id, ctx.bytes@);
    }
    id
}

/// Group `child`: flat iff it fits.
pub fn e_group(ctx: &Ctx, b: &mut DocBuilder, child: NodeId) -> (id: NodeId)
    requires
        doc_ok(*old(b), ctx.bytes@),
        child < old(b).nodes_spec().len(),
    ensures
        doc_ok(*final(b), ctx.bytes@),
        grows(*old(b), *final(b)),
        id < final(b).nodes_spec().len(),        settled(*old(b), *final(b)),
        !final(b).full_spec() ==> doc_text(*final(b), id as int) == doc_text(*old(b), child as int),
        !final(b).full_spec() ==> doc_layout(*final(b), id as int) == doc_layout(*old(b), child as int),
        !final(b).full_spec() ==> id == old(b).nodes_spec().len() && final(b).nodes_spec() == old(
            b,
        ).nodes_spec().push(
            DocNode::Group {
                child: crate::doc::arena::Range {
                    start: old(b).cids_spec().len() as u32,
                    end: (old(b).cids_spec().len() + 1) as u32,
                },
                forced_break: crate::doc::arena::node_forced(old(b).nodes_spec(), old(b).cids_spec(), child as int),
            },
        ),
        final(b).cids_spec().len() >= old(b).cids_spec().len(),
        !final(b).full_spec() ==> final(b).cids_spec()[old(b).cids_spec().len() as int] == child,
{
    let ghost b0 = *b;
    let id = b.group(child);
    proof {
        let n = DocNode::Group {
            child: crate::doc::arena::Range {
                start: b0.cids_spec().len() as u32,
                end: (b0.cids_spec().len() + 1) as u32,
            },
            forced_break: crate::doc::arena::node_forced(b0.nodes_spec(), b0.cids_spec(), child as int),
        };
        lemma_pushed_ok(b0, *b, n, id, ctx.bytes@);
    }
    id
}

/// Concatenate `items` in order.
pub fn e_seq(ctx: &Ctx, b: &mut DocBuilder, items: &[NodeId]) -> (id: NodeId)
    requires
        doc_ok(*old(b), ctx.bytes@),
        ids_ok(items@, *old(b)),
    ensures
        doc_ok(*final(b), ctx.bytes@),
        grows(*old(b), *final(b)),
        id < final(b).nodes_spec().len(),        settled(*old(b), *final(b)),
        !final(b).full_spec() ==> doc_text(*final(b), id as int) == items_text(*old(b), items@),
        !final(b).full_spec() ==> doc_layout(*final(b), id as int) == items_layout(*old(b), items@),
{
    let ghost b0 = *b;
    let id = b.seq(items);
    proof {
        if items@.len() == 0 {
            lemma_pushed_ok(b0, *b, DocNode::Nil, id, ctx.bytes@);
        } else if items@.len() >= 2 {
            let n = DocNode::Sequence(
                crate::doc::arena::Range {
                    start: b0.cids_spec().len() as u32,
                    end: (b0.cids_spec().len() + items@.len()) as u32,
                },
            );
            lemma_pushed_ok(b0, *b, n, id, ctx.bytes@);
        } else {
            assert(items@[0] < b0.nodes_spec().len());
        }
    }
    id
}


/// The bracket depth a child of node `i` with field `field` sits at: one level
/// deeper inside a bracketing construct — an `elements` or `arguments` field, or
/// the unfielded interior of a tuple `( … )`, an abs `| … |`, or a theory tuple,
/// list or set, the bracket tokens themselves excluded.
pub fn child_depth(ctx: &Ctx, i: usize, field: u16, c: usize, parent_depth: usize) -> (d: usize)
    requires
        ctx.ok(),
        i < ctx.cst.nodes@.len(),
        c < ctx.cst.nodes@.len(),
        parent_depth < usize::MAX,
    ensures
        d == parent_depth || d == parent_depth + 1,
{
    let k = ctx.kinds;
    let f = ctx.fields;
    if field != 0 && (field == f.elements || field == f.arguments) {
        return parent_depth + 1;
    }
    let pid = ctx.cst.nodes[i].kind;
    let cid = ctx.cst.nodes[c].kind;
    if pid == k.tuple && cid != k.lparen && cid != k.rparen {
        return parent_depth + 1;
    }
    if pid == k.abs && cid != k.pipe {
        return parent_depth + 1;
    }
    if pid == k.theory_tuple && cid != k.lparen && cid != k.rparen {
        return parent_depth + 1;
    }
    if pid == k.theory_list && cid != k.lbracket && cid != k.rbracket {
        return parent_depth + 1;
    }
    if pid == k.theory_set && cid != k.lbrace && cid != k.rbrace {
        return parent_depth + 1;
    }
    parent_depth
}

/// Whether node `i` is emitted as one verbatim whole-node span with no descent:
/// an `ERROR` / `MISSING` node, a leaf, or a composite with no construct rule.
pub fn is_verbatim_leaf(ctx: &Ctx, i: usize) -> (r: bool)
    requires
        ctx.ok(),
        i < ctx.cst.nodes@.len(),
    ensures
        r == (ctx.cst.nodes@[i as int].error || ctx.cst.nodes@[i as int].missing || ctx.cst.nodes@[i as int].count
            == 0 || !constructs::handled_kind(ctx.kinds, ctx.cst.nodes@[i as int].kind)),
{
    let n = ctx.cst.nodes[i];
    n.error || n.missing || crate::cst::is_leaf(ctx.cst, i) || !constructs::handles(ctx, i)
}

/// Lower the whole tree to a Doc root. A forward pass over the breadth-first
/// numbering (parents before children) computes each node's bracket depth and
/// whether an ancestor is emitted whole; a reverse pass (children before
/// parents) then lowers every reached node — verbatim for a leaf, an `ERROR` /
/// `MISSING` node or an unhandled kind, else by its construct rule (verbatim if
/// the rule declines).
pub fn lower_tree(ctx: &Ctx, b: &mut DocBuilder) -> (root: NodeId)
    requires
        ctx.ok(),
        doc_ok(*old(b), ctx.bytes@),
    ensures
        doc_ok(*final(b), ctx.bytes@),
        root < final(b).nodes_spec().len(),
{
    let n = ctx.cst.nodes.len();
    let mut depth: Vec<usize> = Vec::new();
    let mut skip: Vec<bool> = Vec::new();
    let mut leafy: Vec<bool> = Vec::new();
    let mut q: usize = 0;
    while q < n
        invariant
            q <= n == ctx.cst.nodes@.len(),
            depth@.len() == q,
            skip@.len() == q,
            leafy@.len() == q,
            forall|j: int| 0 <= j < q ==> #[trigger] depth@[j] == 0,
        decreases n - q,
    {
        depth.push(0);
        skip.push(false);
        leafy.push(false);
        q = q + 1;
    }
    let mut i: usize = 0;
    while i < n
        invariant
            ctx.ok(),
            i <= n == ctx.cst.nodes@.len(),
            depth@.len() == n,
            skip@.len() == n,
            leafy@.len() == n,
            forall|j: int| 0 <= j < n ==> #[trigger] depth@[j] <= j,
        decreases n - i,
    {
        let lf = is_verbatim_leaf(ctx, i);
        leafy.set(i, lf);
        let stop = skip[i] || lf;
        let d = depth[i];
        let kids = ctx.cst.walk_children(i);
        let mut j: usize = 0;
        while j < kids.len()
            invariant
                ctx.ok(),
                i < n == ctx.cst.nodes@.len(),
                depth@.len() == n,
                skip@.len() == n,
                leafy@.len() == n,
                d <= i,
                j <= kids@.len(),
                forall|q: int| 0 <= q < kids@.len() ==> i < (#[trigger] kids@[q]).1 < n,
                forall|q: int| 0 <= q < n ==> #[trigger] depth@[q] <= q,
            decreases kids@.len() - j,
        {
            let (field, c) = kids[j];
            let cd = child_depth(ctx, i, field, c, d);
            depth.set(c, cd);
            skip.set(c, stop);
            j = j + 1;
        }
        i = i + 1;
    }
    let nil = e_nil(ctx, b);
    let mut built: Vec<NodeId> = Vec::new();
    let mut q: usize = 0;
    while q < n
        invariant
            q <= n,
            built@.len() == q,
            nil < b.nodes_spec().len(),
            ids_ok(built@, *b),
        decreases n - q,
    {
        built.push(nil);
        q = q + 1;
    }
    let mut i = n;
    while i > 0
        invariant
            env_ok(ctx, built@, *b),
            i <= n == ctx.cst.nodes@.len(),
            depth@.len() == n,
            skip@.len() == n,
            leafy@.len() == n,
            forall|j: int| 0 <= j < n ==> #[trigger] depth@[j] <= j,
        decreases i,
    {
        i = i - 1;
        if !skip[i] {
            let d = if leafy[i] {
                token::token(ctx, i, b)
            } else {
                match constructs::build(ctx, i, depth[i], &built, b) {
                    Some(d) => d,
                    None => token::token(ctx, i, b),
                }
            };
            built.set(i, d);
        }
    }
    built[0]
}

/// Lower a parsed tree to a Doc the renderer accepts for `src`. Total: every node
/// is emitted, any node without a construct rule (and every `ERROR` / `MISSING`
/// node) as a verbatim source span. The flag reports that the Doc arena ran out
/// of `u32` ids on the way, in which case the Doc is incomplete.
pub fn lower(cst: &Cst, src: &str, at: &Attachments, style: &Style) -> (r: (Doc, bool))
    requires
        cst.wf(),
        at.by_anchor@.len() == cst.nodes@.len(),
        style.wf(),
        src.spec_bytes().len() <= u32::MAX,
    ensures
        r.0.wf(),
        spans_ok(r.0.nodes_spec(), src.spec_bytes()),
{
    let kinds = KindIds::new();
    let fields = FieldIds::new();
    let ctx = Ctx { src, bytes: src.as_bytes(), cst, kinds: &kinds, fields: &fields, at, style };
    let mut b = DocBuilder::new();
    let root = lower_tree(&ctx, &mut b);
    let full = b.is_full();
    (b.finish(root), full)
}

/// `s` with its trailing newline bytes removed.
pub open spec fn strip_newlines(s: Seq<u8>) -> Seq<u8>
    decreases s.len(),
{
    if s.len() > 0 && s.last() == 10u8 {
        strip_newlines(s.drop_last())
    } else {
        s
    }
}

/// The final-newline normalization: a non-empty text ends in exactly one
/// newline; an empty one stays empty.
pub open spec fn normalize_final_newline(s: Seq<u8>) -> Seq<u8> {
    let t = strip_newlines(s);
    if t.len() == 0 {
        t
    } else {
        t.push(10u8)
    }
}

/// Text that is empty or ends in exactly one newline.
pub open spec fn ends_in_one_newline(s: Seq<u8>) -> bool {
    s.len() == 0 || (s.last() == 10u8 && (s.len() == 1 || s[s.len() - 2] != 10u8))
}

/// Stripping newlines leaves no trailing newline.
pub proof fn lemma_strip_newlines(s: Seq<u8>)
    ensures
        strip_newlines(s).len() <= s.len(),
        strip_newlines(s) == s.subrange(0, strip_newlines(s).len() as int),
        strip_newlines(s).len() > 0 ==> strip_newlines(s).last() != 10u8,
    decreases s.len(),
{
    if s.len() > 0 && s.last() == 10u8 {
        lemma_strip_newlines(s.drop_last());
        let t = strip_newlines(s.drop_last());
        assert(t == s.subrange(0, t.len() as int)) by {
            assert(s.drop_last().subrange(0, t.len() as int) =~= s.subrange(0, t.len() as int));
        }
    } else {
        assert(s.subrange(0, s.len() as int) =~= s);
    }
}

/// The normalization always yields text that is empty or ends in exactly one
/// newline, and is idempotent.
pub proof fn lemma_normalize_final_newline(s: Seq<u8>)
    ensures
        ends_in_one_newline(normalize_final_newline(s)),
        normalize_final_newline(normalize_final_newline(s)) == normalize_final_newline(s),
{
    lemma_strip_newlines(s);
    let t = strip_newlines(s);
    if t.len() > 0 {
        let u = t.push(10u8);
        assert(u.drop_last() =~= t);
        assert(strip_newlines(u) == strip_newlines(t));
        assert(strip_newlines(t) == t);
    }
}

/// Normalize `out`'s final newline in place.
pub fn normalize_newline(out: &mut Vec<u8>)
    ensures
        final(out)@ == normalize_final_newline(old(out)@),
{
    proof {
        lemma_strip_newlines(old(out)@);
    }
    while out.len() > 0 && out[out.len() - 1] == 10u8
        invariant
            strip_newlines(out@) == strip_newlines(old(out)@),
        decreases out@.len(),
    {
        let ghost before = out@;
        out.pop();
        assert(out@ =~= before.drop_last());
    }
    assert(strip_newlines(out@) == out@);
    if out.len() > 0 {
        out.push(10u8);
    }
}

/// Format ASP/clingo source under `style`: parse, attach comments, lower to a
/// Doc, render at the style's width, and normalize the final newline — a
/// non-empty output ends in exactly one newline, an empty or whitespace-only
/// document stays empty. Total. A source the parser declines, or one too large
/// for the Doc arena's `u32` ids, is returned as is.
pub fn format(src: &str, style: &Style) -> (out: String)
    requires
        style.wf(),
        src.spec_bytes().len() <= u32::MAX,
    ensures
        ends_in_one_newline(vstd::utf8::encode_utf8(out@)) || out@ == src@,
        crate::cst::source_cst(src@) is None ==> out@ == src@,
{
    let cst = match read_source(src) {
        Some(c) => c,
        None => {
            return src.to_owned();
        },
    };
    let at = attach(&cst, src);
    let (doc, full) = lower(&cst, src, &at, style);
    if full {
        return src.to_owned();
    }
    let (mut bytes, _) = render_core(&doc, src, style.line_width());
    let ghost rendered = bytes@;
    normalize_newline(&mut bytes);
    let ghost nb = bytes@;
    proof {
        lemma_normalize_final_newline(rendered);
        assert(ends_in_one_newline(nb));
    }
    match string_from_utf8(bytes) {
        Some(s) => {
            assert(vstd::utf8::encode_utf8(s@) == nb);
            s
        },
        None => src.to_owned(),
    }
}

} // verus!
