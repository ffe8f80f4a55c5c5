//! Comment re-injection: the emitter filters trivia comments out of its
//! part-building walks and re-injects them, from the `comments::attach` table,
//! at their anchors — every re-injected comment followed by a `hardline`, so the
//! next token can never share the comment's line. A comment's text is a `leaf`
//! (single-line, trailing whitespace stripped) or a `verbatim` span (a
//! multi-line block comment, byte-exact).

use super::assemble::{parts_ok, Part, Role};
use super::{doc_ok, e_hardline, e_nil, e_seq, e_space, grows, ids_ok, lemma_pushed_ok, Ctx};
use crate::comments::Trivia;
use crate::cst::{child_of, lemma_children_in_bounds, CstNode, KindIds};
use crate::doc::arena::{DocNode, NodeId, Piece, Span};
use crate::doc::builder::{doc_layout, doc_text, items_text, lemma_items_stable, settled, DocBuilder};
use crate::text::{display_width_spec, slice_ok, trim_end, trim_end_spec, try_slice};
use vstd::prelude::*;
use vstd::string::StringSliceAdditionalSpecFns;

verus! {

/// The byte length of the source bytes `[start, end)` once the trailing
/// whitespace of their characters is removed.
pub open spec fn trimmed_len(src: Seq<u8>, start: int, end: int) -> int {
    vstd::utf8::encode_utf8(crate::text::trim_end_spec(vstd::utf8::decode_utf8(src.subrange(start, end)))).len() as int
}

/// The end offset of the source bytes `[start, end)` with trailing whitespace
/// removed, so an emitted single-line comment carries none; `end` itself when
/// the range does not cut the source on character boundaries.
pub fn trim_comment_end(src: &str, start: usize, end: usize) -> (r: usize)
    ensures
        crate::text::slice_ok(src.spec_bytes(), start as int, end as int) ==> start <= r <= end && r == start
            + trimmed_len(src.spec_bytes(), start as int, end as int),
        !crate::text::slice_ok(src.spec_bytes(), start as int, end as int) ==> r == end,
{
    match try_slice(src, start, end) {
        Some(s) => {
            let t = trim_end(s);
            assert(t.spec_bytes().len() <= s.spec_bytes().len());
            start + t.len()
        },
        None => end,
    }
}

/// The text a re-injected comment prints: nothing when its span does not cut
/// the source cleanly; a multi-line block comment's whole span; any other
/// comment's span with its trailing whitespace removed.
pub open spec fn trivia_text(src: &str, t: Trivia) -> Seq<Span> {
    let bytes = src.spec_bytes();
    if !slice_ok(bytes, t.start as int, t.end as int) {
        Seq::empty()
    } else if t.multiline {
        seq![Span { start: t.start as u32, len: (t.end - t.start) as u32, width: 0 }]
    } else {
        let tr = trim_end_spec(vstd::utf8::decode_utf8(bytes.subrange(t.start as int, t.end as int)));
        let w = display_width_spec(tr);
        seq![
            Span {
                start: t.start as u32,
                len: vstd::utf8::encode_utf8(tr).len() as u32,
                width: if w <= u32::MAX {
                    w as u32
                } else {
                    u32::MAX
                },
            },
        ]
    }
}

/// The texts of a run of re-injected comments, in order.
pub open spec fn trivias_text(src: &str, ts: Seq<Trivia>) -> Seq<Span>
    decreases ts.len(),
{
    if ts.len() == 0 {
        Seq::empty()
    } else {
        trivias_text(src, ts.drop_last()) + trivia_text(src, ts.last())
    }
}

/// One re-injected trivia comment as a Doc node: a multi-line block comment is a
/// byte-exact `verbatim` span; any other comment is a `leaf` with its trailing
/// whitespace stripped.
pub fn comment_doc(ctx: &Ctx, t: Trivia, b: &mut DocBuilder) -> (id: NodeId)
    requires
        ctx.ok(),
        doc_ok(*old(b), ctx.bytes@),
    ensures
        doc_ok(*final(b), ctx.bytes@),
        grows(*old(b), *final(b)),
        id < final(b).nodes_spec().len(),
        settled(*old(b), *final(b)),
        !final(b).full_spec() ==> doc_text(*final(b), id as int) == trivia_text(ctx.src, t),
        !final(b).full_spec() ==> doc_layout(*final(b), id as int) == trivia_text(ctx.src, t).map_values(
            |sp: Span| Piece::Text(sp),
        ),
{
    let s = match try_slice(ctx.src, t.start, t.end) {
        Some(s) => s,
        None => {
            return e_nil(ctx, b);
        },
    };
    let ghost b0 = *b;
    if t.multiline {
        let id = b.verbatim(t.start as u32, s);
        proof {
            let n = DocNode::Verbatim(Span { start: t.start as u32, len: s.spec_bytes().len() as u32, width: 0 });
            lemma_pushed_ok(b0, *b, n, id, ctx.bytes@);
        }
        id
    } else {
        let trimmed = trim_end(s);
        let id = b.leaf(t.start as u32, trimmed);
        proof {
            let w = display_width_spec(trimmed@);
            let n = DocNode::Leaf(
                Span {
                    start: t.start as u32,
                    len: trimmed.spec_bytes().len() as u32,
                    width: if w <= u32::MAX { w as u32 } else { u32::MAX },
                },
            );
            lemma_pushed_ok(b0, *b, n, id, ctx.bytes@);
        }
        id
    }
}

/// Whether node `n` is a trivia comment (`line_comment` / `block_comment`).
pub fn is_comment(k: &KindIds, n: CstNode) -> (r: bool)
    ensures
        r == (n.kind == k.line_comment || n.kind == k.block_comment),
{
    n.kind == k.line_comment || n.kind == k.block_comment
}

/// Node `i`'s first `j` children that are not trivia comments, in source
/// order, each with its field id.
pub open spec fn code_kids(ns: Seq<CstNode>, k: &KindIds, i: int, j: int) -> Seq<(u16, usize)>
    decreases j,
{
    if j <= 0 {
        Seq::empty()
    } else {
        let c = ns[i].first + j - 1;
        code_kids(ns, k, i, j - 1) + if ns[c].kind == k.line_comment || ns[c].kind == k.block_comment {
            Seq::<(u16, usize)>::empty()
        } else {
            seq![(ns[c].field, c as usize)]
        }
    }
}

/// Node `i`'s children in source order, each with its field id, skipping trivia
/// comments.
pub fn walk_code_children(ctx: &Ctx, i: usize) -> (r: Vec<(u16, usize)>)
    requires
        ctx.ok(),
        i < ctx.cst.nodes@.len(),
    ensures
        r@ == code_kids(ctx.cst.nodes@, ctx.kinds, i as int, ctx.cst.nodes@[i as int].count as int),
        forall|j: int| 0 <= j < r@.len() ==> i < (#[trigger] r@[j]).1 < ctx.cst.nodes@.len(),
        forall|j: int|
            0 <= j < r@.len() ==> (#[trigger] r@[j]).0 == ctx.cst.nodes@[r@[j].1 as int].field,
{
    proof {
        lemma_children_in_bounds(ctx.cst.nodes@, i as int);
    }
    let n = ctx.cst.nodes[i];
    let mut r: Vec<(u16, usize)> = Vec::new();
    let mut j: usize = 0;
    while j < n.count
        invariant
            ctx.ok(),
            n == ctx.cst.nodes@[i as int],
            i < n.first,
            n.first + n.count <= ctx.cst.nodes@.len(),
            j <= n.count,
            forall|q: int| 0 <= q < r@.len() ==> i < (#[trigger] r@[q]).1 < ctx.cst.nodes@.len(),
            forall|q: int|
                0 <= q < r@.len() ==> (#[trigger] r@[q]).0 == ctx.cst.nodes@[r@[q].1 as int].field,
            r@ == code_kids(ctx.cst.nodes@, ctx.kinds, i as int, j as int),
        decreases n.count - j,
    {
        let c = n.first + j;
        let child = ctx.cst.nodes[c];
        let ghost r0 = r@;
        if !is_comment(ctx.kinds, child) {
            r.push((child.field, c));
        }
        proof {
            let ns = ctx.cst.nodes@;
            assert(ns[i as int].first + (j + 1) - 1 == c);
            if child.kind == ctx.kinds.line_comment || child.kind == ctx.kinds.block_comment {
                assert(r@ =~= r0 + Seq::<(u16, usize)>::empty());
            } else {
                assert(r@ =~= r0 + seq![(ns[c as int].field, c)]);
            }
        }
        j = j + 1;
    }
    r
}

/// Wrap `base` (child `c`'s lowered Doc) with the comments anchored to `c`: each
/// leading comment on its own line above (a break before the run too, so it never
/// glues to a preceding same-line token), each trailing comment after a one-space
/// gap, every comment followed by a `hardline`. A child with no leading or
/// trailing comment returns `base` untouched.
pub fn wrap(ctx: &Ctx, base: NodeId, c: usize, b: &mut DocBuilder) -> (id: NodeId)
    requires
        ctx.ok(),
        c < ctx.cst.nodes@.len(),
        doc_ok(*old(b), ctx.bytes@),
        base < old(b).nodes_spec().len(),
    ensures
        doc_ok(*final(b), ctx.bytes@),
        grows(*old(b), *final(b)),
        id < final(b).nodes_spec().len(),
        ctx.at.by_anchor@[c as int].leading@.len() == 0 && ctx.at.by_anchor@[c as int].trailing@.len() == 0
            ==> id == base && *final(b) == *old(b),
        settled(*old(b), *final(b)),
        !final(b).full_spec() ==> doc_text(*final(b), id as int) == trivias_text(
            ctx.src,
            ctx.at.by_anchor@[c as int].leading@,
        ) + doc_text(*old(b), base as int) + trivias_text(ctx.src, ctx.at.by_anchor@[c as int].trailing@),
{
    let ac = ctx.at.for_node(c);
    let ghost lead_s = ac.leading@;
    let ghost trail_s = ac.trailing@;
    if ac.leading.len() == 0 && ac.trailing.len() == 0 {
        proof {
            assert(trivias_text(ctx.src, lead_s) =~= Seq::<Span>::empty());
            assert(trivias_text(ctx.src, trail_s) =~= Seq::<Span>::empty());
            assert(Seq::<Span>::empty() + doc_text(*old(b), base as int) + Seq::<Span>::empty() =~= doc_text(
                *old(b),
                base as int,
            ));
        }
        return base;
    }
    let mut items: Vec<NodeId> = Vec::new();
    if ac.leading.len() > 0 {
        let lead = e_hardline(ctx, b);
        items.push(lead);
        proof {
            assert(items@.drop_last() =~= Seq::<NodeId>::empty());
            assert(items@.last() == lead);
        }
    }
    proof {
        assert(lead_s.subrange(0, 0) =~= Seq::<Trivia>::empty());
        assert(trivias_text(ctx.src, Seq::<Trivia>::empty()) =~= Seq::<Span>::empty());
        assert(items_text(*b, Seq::<NodeId>::empty()) =~= Seq::<Span>::empty());
        if !b.full_spec() {
            assert(items_text(*b, items@) =~= trivias_text(ctx.src, lead_s.subrange(0, 0)));
        }
    }
    let mut k: usize = 0;
    while k < ac.leading.len()
        invariant
            ctx.ok(),
            doc_ok(*b, ctx.bytes@),
            grows(*old(b), *b),
            ids_ok(items@, *b),
            base < old(b).nodes_spec().len(),
            settled(*old(b), *b),
            k <= lead_s.len(),
            lead_s == ac.leading@,
            !b.full_spec() ==> items_text(*b, items@) == trivias_text(ctx.src, lead_s.subrange(0, k as int)),
        decreases ac.leading@.len() - k,
    {
        let ghost b0 = *b;
        let ghost i0 = items@;
        let cd = comment_doc(ctx, ac.leading[k], b);
        let ghost b1 = *b;
        items.push(cd);
        let nl = e_hardline(ctx, b);
        items.push(nl);
        proof {
            if !b.full_spec() {
                let i1 = i0.push(cd);
                assert(items@.drop_last() =~= i1);
                assert(items@.last() == nl);
                assert(i1.drop_last() =~= i0);
                assert(i1.last() == cd);
                lemma_items_stable(b0, *b, i0);
                assert(!b1.full_spec() && !b0.full_spec());
                assert(doc_text(*b, nl as int) =~= Seq::<Span>::empty());
                assert(doc_text(*b, cd as int) == doc_text(b1, cd as int));
                assert(doc_text(b1, cd as int) == trivia_text(ctx.src, lead_s[k as int]));
                assert(items_text(*b, items@) == items_text(*b, i1) + doc_text(*b, nl as int));
                assert(items_text(*b, i1) == items_text(*b, i0) + doc_text(*b, cd as int));
                assert(lead_s.subrange(0, k + 1).drop_last() =~= lead_s.subrange(0, k as int));
                assert(lead_s.subrange(0, k + 1).last() == lead_s[k as int]);
                assert(items_text(*b, items@) =~= trivias_text(ctx.src, lead_s.subrange(0, k + 1)));
            }
        }
        k = k + 1;
    }
    let ghost b2 = *b;
    let ghost i2 = items@;
    items.push(base);
    proof {
        assert(lead_s.subrange(0, lead_s.len() as int) =~= lead_s);
        assert(trail_s.subrange(0, 0) =~= Seq::<Trivia>::empty());
        if !b.full_spec() {
            assert(items@.drop_last() =~= i2);
            assert(items@.last() == base);
            assert(doc_text(*b, base as int) == doc_text(*old(b), base as int));
            assert(trivias_text(ctx.src, Seq::<Trivia>::empty()) =~= Seq::<Span>::empty());
            assert(items_text(*b, items@) == items_text(*b, i2) + doc_text(*b, base as int));
            assert(items_text(*b, items@) =~= trivias_text(ctx.src, lead_s) + doc_text(*old(b), base as int)
                + trivias_text(ctx.src, trail_s.subrange(0, 0)));
        }
    }
    let mut k: usize = 0;
    while k < ac.trailing.len()
        invariant
            ctx.ok(),
            doc_ok(*b, ctx.bytes@),
            grows(*old(b), *b),
            ids_ok(items@, *b),
            base < old(b).nodes_spec().len(),
            settled(*old(b), *b),
            k <= trail_s.len(),
            trail_s == ac.trailing@,
            !b.full_spec() ==> items_text(*b, items@) == trivias_text(ctx.src, lead_s) + doc_text(
                *old(b),
                base as int,
            ) + trivias_text(ctx.src, trail_s.subrange(0, k as int)),
        decreases ac.trailing@.len() - k,
    {
        let ghost b0 = *b;
        let ghost i0 = items@;
        let sp = e_space(ctx, b);
        items.push(sp);
        let ghost bs = *b;
        let cd = comment_doc(ctx, ac.trailing[k], b);
        let ghost b1 = *b;
        items.push(cd);
        let nl = e_hardline(ctx, b);
        items.push(nl);
        proof {
            if !b.full_spec() {
                let i1 = i0.push(sp);
                let i2 = i1.push(cd);
                assert(items@.drop_last() =~= i2);
                assert(items@.last() == nl);
                assert(i2.drop_last() =~= i1);
                assert(i2.last() == cd);
                assert(i1.drop_last() =~= i0);
                assert(i1.last() == sp);
                lemma_items_stable(b0, *b, i0);
                assert(!b1.full_spec() && !bs.full_spec() && !b0.full_spec());
                assert(doc_text(*b, nl as int) =~= Seq::<Span>::empty());
                assert(doc_text(*b, cd as int) == doc_text(b1, cd as int));
                assert(doc_text(b1, cd as int) == trivia_text(ctx.src, trail_s[k as int]));
                assert(doc_text(*b, sp as int) == doc_text(bs, sp as int));
                assert(doc_text(bs, sp as int) =~= Seq::<Span>::empty());
                assert(items_text(*b, items@) == items_text(*b, i2) + doc_text(*b, nl as int));
                assert(items_text(*b, i2) == items_text(*b, i1) + doc_text(*b, cd as int));
                assert(items_text(*b, i1) == items_text(*b, i0) + doc_text(*b, sp as int));
                assert(trail_s.subrange(0, k + 1).drop_last() =~= trail_s.subrange(0, k as int));
                assert(trail_s.subrange(0, k + 1).last() == trail_s[k as int]);
                assert(items_text(*b, items@) =~= trivias_text(ctx.src, lead_s) + doc_text(*old(b), base as int)
                    + trivias_text(ctx.src, trail_s.subrange(0, k + 1)));
            }
        }
        k = k + 1;
    }
    proof {
        assert(trail_s.subrange(0, trail_s.len() as int) =~= trail_s);
    }
    e_seq(ctx, b, items.as_slice())
}

/// Where node dangling comments go among `parts`: before the last `Closer`; else
/// before a trailing run of `Tail`s; else at the end.
pub open spec fn dangling_at(s: Seq<Part>) -> int {
    let c = last_closer(s, s.len() as int);
    if c >= 0 {
        c
    } else {
        crate::emit::assemble::tail_start(s, 0, s.len() as int)
    }
}

/// The last index below `hi` holding a `Closer`, or -1.
pub open spec fn last_closer(s: Seq<Part>, hi: int) -> int
    decreases hi,
{
    if hi <= 0 {
        -1
    } else if s[hi - 1].role == Role::Closer {
        hi - 1
    } else {
        last_closer(s, hi - 1)
    }
}

/// Inject node `i`'s dangling comments as body parts, just before the closer
/// (else before a glued tail run, else appended). Each is an `Element` whose doc
/// is `hardline comment hardline`. A node with no dangling comment is unchanged.
pub fn push_dangling(ctx: &Ctx, i: usize, parts: &mut Vec<Part>, b: &mut DocBuilder)
    requires
        ctx.ok(),
        i < ctx.cst.nodes@.len(),
        doc_ok(*old(b), ctx.bytes@),
        parts_ok(old(parts)@, *old(b)),
    ensures
        doc_ok(*final(b), ctx.bytes@),
        grows(*old(b), *final(b)),
        parts_ok(final(parts)@, *final(b)),
        final(parts)@.len() == old(parts)@.len() + ctx.at.by_anchor@[i as int].dangling@.len(),
        ({
            let at = dangling_at(old(parts)@);
            let d = ctx.at.by_anchor@[i as int].dangling@.len();
            &&& final(parts)@.subrange(0, at) == old(parts)@.subrange(0, at)
            &&& final(parts)@.subrange(at + d, final(parts)@.len() as int) == old(parts)@.subrange(
                at,
                old(parts)@.len() as int,
            )
            &&& forall|k: int| at <= k < at + d ==> (#[trigger] final(parts)@[k]).role == Role::Element
        }),
        settled(*old(b), *final(b)),
        ctx.at.by_anchor@[i as int].dangling@.len() == 0 ==> *final(b) == *old(b) && final(parts)@ == old(
            parts,
        )@,
{
    let ac = ctx.at.for_node(i);
    let ghost p0 = parts@;
    let n = parts.len();
    let mut c = n;
    while c > 0 && parts[c - 1].role != Role::Closer
        invariant
            c <= n == parts@.len(),
            last_closer(parts@, n as int) == last_closer(parts@, c as int),
        decreases c,
    {
        c = c - 1;
    }
    let at = if c > 0 {
        c - 1
    } else {
        crate::emit::assemble::split_tail(parts.as_slice(), 0, n)
    };
    proof {
        crate::emit::assemble::lemma_tail_start(p0, 0, n as int);
    }
    assert(at == dangling_at(p0));
    let mut out: Vec<Part> = Vec::new();
    let mut k: usize = 0;
    while k < at
        invariant
            k <= at <= n == p0.len(),
            parts@ == p0,
            out@ == p0.subrange(0, k as int),
        decreases at - k,
    {
        out.push(parts[k]);
        k = k + 1;
        assert(out@ =~= p0.subrange(0, k as int));
    }
    let ghost b0 = *b;
    let mut q: usize = 0;
    while q < ac.dangling.len()
        invariant
            ctx.ok(),
            at <= n == p0.len(),
            doc_ok(*b, ctx.bytes@),
            grows(b0, *b),
            grows(*old(b), *b),
            parts_ok(p0, b0),
            q <= ac.dangling@.len(),
            out@.len() == at + q,
            out@.subrange(0, at as int) == p0.subrange(0, at as int),
            forall|r: int| at <= r < at + q ==> (#[trigger] out@[r]).role == Role::Element,
            parts_ok(out@, *b),
            settled(*old(b), *b),
            ac.dangling@.len() == 0 ==> *b == *old(b),
        decreases ac.dangling@.len() - q,
    {
        let nl1 = e_hardline(ctx, b);
        let cd = comment_doc(ctx, ac.dangling[q], b);
        let nl2 = e_hardline(ctx, b);
        let doc = e_seq(ctx, b, &[nl1, cd, nl2]);
        let ghost o0 = out@;
        out.push(Part { role: Role::Element, doc });
        assert(out@.subrange(0, at as int) =~= o0.subrange(0, at as int));
        q = q + 1;
    }
    let ghost mid = out@;
    let mut k: usize = at;
    while k < n
        invariant
            at <= k <= n == p0.len(),
            parts@ == p0,
            parts_ok(p0, *b),
            parts_ok(out@, *b),
            out@.len() == mid.len() + (k - at),
            out@.subrange(0, mid.len() as int) == mid,
            out@.subrange(mid.len() as int, out@.len() as int) == p0.subrange(at as int, k as int),
        decreases n - k,
    {
        let ghost o0 = out@;
        out.push(parts[k]);
        assert(out@.subrange(0, mid.len() as int) =~= o0.subrange(0, mid.len() as int));
        assert(out@.subrange(mid.len() as int, out@.len() as int) =~= p0.subrange(at as int, k + 1));
        k = k + 1;
    }
    proof {
        assert(out@.subrange(0, at as int) =~= mid.subrange(0, at as int));
        let d = ac.dangling@.len() as int;
        assert forall|r: int| at <= r < at + d implies (#[trigger] out@[r]).role == Role::Element by {
            assert(out@.subrange(0, mid.len() as int)[r] == out@[r]);
            assert(mid[r].role == Role::Element);
        }
        if ac.dangling@.len() == 0 {
            assert(mid.len() == at);
            assert(mid =~= p0.subrange(0, at as int));
            assert forall|r: int| 0 <= r < p0.len() implies out@[r] == p0[r] by {
                if r < at {
                    assert(out@.subrange(0, mid.len() as int)[r] == out@[r]);
                } else {
                    assert(out@.subrange(mid.len() as int, out@.len() as int)[r - at] == out@[r]);
                }
            }
            assert(out@ =~= p0);
        }
    }
    *parts = out;
}

} // verus!
