//! Per-construct role assignment. Each construct family is admitted in
//! [`handles`], assigns [`super::assemble`] roles in [`build`], and calls the
//! assembler; a kind no family handles falls to the verbatim identity. The
//! families cover rules & constraints, heads (disjunction & bracketed
//! aggregates), body literals & signs & comparisons, terms & pools, theory
//! interiors, and directives.

use super::assemble::{
    assemble, classify_spec, first_at, is_which, lemma_items_text_2, lemma_items_text_3, lemma_parts_layout_docs,
    lemma_items_layout_four, lemma_items_layout_push, lemma_items_text_5, lemma_parts_layout_push, no_necks, Spine,
    Which,
    lemma_parts_layout_stable, lemma_parts_text_stable, lemma_separated_spine, lays_first, no_openers, parts_layout,
    parts_ok, parts_text, OpenerKind, Pad, Part, Role,
};
use super::embedded::format_embedded;
use super::reinject::{code_kids, comment_doc, is_comment, push_dangling, trivia_text, trivias_text, walk_code_children, wrap};
use crate::comments::Trivia;
use super::spacing::{comma_spacing, sign_spacing, term_operator_spacing, theory_operator_spacing, Sep};
use super::token::token;
use super::{
    doc_ok, e_blank_line, e_hardline, e_seq, e_space, env_ok, grows, ids_ok, Ctx,
};
use crate::cst::{child_of, CstNode, KindIds};
use crate::doc::arena::{NodeId, Piece, Span};
use crate::doc::builder::{doc_layout, doc_text, items_layout, items_text, lemma_items_stable, settled, stable, DocBuilder};
use crate::fusion::{fuses, Class, Tok};
use crate::style::Style;
use crate::text::{str_eq, try_slice};
use vstd::prelude::*;
use vstd::string::StringSliceAdditionalSpecFns;

verus! {

/// One lowering step: the emitter state stays valid, the builder only grows,
/// and `id` names one of its nodes.
pub open spec fn lowered(ctx: &Ctx, built: Seq<NodeId>, b0: DocBuilder, b1: DocBuilder, id: NodeId) -> bool {
    &&& env_ok(ctx, built, b1)
    &&& grows(b0, b1)
    &&& id < b1.nodes_spec().len()
}

/// The children listed in `kids` all lie strictly below node `i` in the tree.
pub open spec fn kids_ok(ctx: &Ctx, i: usize, kids: Seq<(u16, usize)>) -> bool {
    forall|q: int| 0 <= q < kids.len() ==> i < (#[trigger] kids[q]).1 < ctx.cst.nodes@.len()
}

/// The style's block indent and neck hang as nest deltas.
pub fn nest_deltas(style: &Style) -> (r: (i32, i32))
    requires
        style.wf(),
    ensures
        r.0 == style.indent_spec(),
        r.1 == style.neck_spec(),
{
    proof {
        style.lemma_house_constants();
    }
    (style.indent() as i32, style.neck_width() as i32)
}

/// The text child `c` contributes, with `base` its lowered Doc in `b`: its
/// leading comments, the Doc's text, its trailing comments.
pub open spec fn child_text(ctx: &Ctx, b: DocBuilder, base: NodeId, c: int) -> Seq<Span> {
    trivias_text(ctx.src, ctx.at.by_anchor@[c].leading@) + doc_text(b, base as int) + trivias_text(
        ctx.src,
        ctx.at.by_anchor@[c].trailing@,
    )
}

/// The already-lowered Doc of child `c`, wrapped with the leading / trailing
/// comments anchored to it.
pub fn child_doc(ctx: &Ctx, built: &Vec<NodeId>, c: usize, b: &mut DocBuilder) -> (id: NodeId)
    requires
        env_ok(ctx, built@, *old(b)),
        c < ctx.cst.nodes@.len(),
    ensures
        lowered(ctx, built@, *old(b), *final(b), id),
        settled(*old(b), *final(b)),
        !final(b).full_spec() ==> doc_text(*final(b), id as int) == child_text(ctx, *old(b), built@[c as int], c as int),
        ctx.at.by_anchor@[c as int].leading@.len() == 0 && ctx.at.by_anchor@[c as int].trailing@.len() == 0
            ==> id == built@[c as int] && *final(b) == *old(b),
{
    let base = built[c];
    wrap(ctx, base, c, b)
}

/// Whether node `c`'s span cuts the source cleanly.
pub open spec fn node_sliceable(ctx: &Ctx, c: int) -> bool {
    crate::text::slice_ok(ctx.src.spec_bytes(), ctx.cst.nodes@[c].start as int, ctx.cst.nodes@[c].end as int)
}

/// The characters of node `c`'s source span.
pub open spec fn node_chars(ctx: &Ctx, c: int) -> Seq<char> {
    vstd::utf8::decode_utf8(
        ctx.src.spec_bytes().subrange(ctx.cst.nodes@[c].start as int, ctx.cst.nodes@[c].end as int),
    )
}

/// The source text of node `c`, when its span cuts the source cleanly.
pub fn node_text<'a>(ctx: &Ctx<'a>, c: usize) -> (r: Option<&'a str>)
    requires
        ctx.ok(),
        c < ctx.cst.nodes@.len(),
    ensures
        r is Some <==> node_sliceable(ctx, c as int),
        r matches Some(t) ==> t@ == node_chars(ctx, c as int),
{
    let n = ctx.cst.nodes[c];
    try_slice(ctx.src, n.start, n.end)
}

/// A child that makes its parent degrade: `ERROR`, `MISSING`, or a pool edge.
pub open spec fn degrading(k: &KindIds, n: CstNode) -> bool {
    n.kind == k.lone_comma || n.kind == k.empty_pool_item || n.error || n.missing
}

/// Some direct child of node `i` degrades it.
pub open spec fn unformattable(ctx: &Ctx, i: int) -> bool {
    exists|q: int|
        0 <= q < ctx.cst.nodes@[i].count && #[trigger] degrading(
            ctx.kinds,
            ctx.cst.nodes@[child_of(ctx.cst.nodes@, i, q)],
        )
}

/// Whether node `i` degrades to its verbatim source span: a direct `ERROR` /
/// `MISSING` child, or a pool edge — a `lone_comma` (`(,)`) or an
/// `empty_pool_item` (`f(a;;b)`).
pub fn has_unformattable_child(ctx: &Ctx, i: usize) -> (r: bool)
    requires
        ctx.ok(),
        i < ctx.cst.nodes@.len(),
    ensures
        r == unformattable(ctx, i as int),
{
    let k = ctx.kinds;
    let kids = ctx.cst.walk_children(i);
    let mut degrade = false;
    let mut j: usize = 0;
    while j < kids.len()
        invariant
            ctx.ok(),
            i < ctx.cst.nodes@.len(),
            j <= kids@.len(),
            kids_ok(ctx, i, kids@),
            kids@.len() == ctx.cst.nodes@[i as int].count,
            k == ctx.kinds,
            forall|q: int|
                0 <= q < kids@.len() ==> #[trigger] kids@[q] == (
                    ctx.cst.nodes@[child_of(ctx.cst.nodes@, i as int, q)].field,
                    child_of(ctx.cst.nodes@, i as int, q) as usize,
                ),
            degrade == exists|q: int|
                0 <= q < j && #[trigger] degrading(ctx.kinds, ctx.cst.nodes@[child_of(ctx.cst.nodes@, i as int, q)]),
        decreases kids@.len() - j,
    {
        proof {
            crate::cst::lemma_children_in_bounds(ctx.cst.nodes@, i as int);
            assert(kids@[j as int] == (
                ctx.cst.nodes@[child_of(ctx.cst.nodes@, i as int, j as int)].field,
                child_of(ctx.cst.nodes@, i as int, j as int) as usize,
            ));
        }
        let child = ctx.cst.nodes[kids[j].1];
        let ghost d0 = degrade;
        if child.kind == k.lone_comma || child.kind == k.empty_pool_item || child.error || child.missing {
            degrade = true;
        }
        proof {
            let cj = child_of(ctx.cst.nodes@, i as int, j as int);
            assert(child == ctx.cst.nodes@[cj]);
            assert(degrading(k, child) == (child.kind == k.lone_comma || child.kind == k.empty_pool_item
                || child.error || child.missing));
            if degrade {
                if !d0 {
                    assert(degrading(ctx.kinds, ctx.cst.nodes@[cj]));
                }
            } else {
                assert forall|q: int| 0 <= q < j + 1 implies !#[trigger] degrading(
                    ctx.kinds,
                    ctx.cst.nodes@[child_of(ctx.cst.nodes@, i as int, q)],
                ) by {
                    if q < j {
                    } else {
                        assert(q == j);
                    }
                }
            }
        }
        j = j + 1;
    }
    degrade
}

/// The layout of the children `kids[0..m)` joined as [`lower_joined`] joins
/// them: each as its Doc from `built` in `b`, with a blank between consecutive
/// children when `spaced`.
pub open spec fn joined_layout(built: Seq<NodeId>, b: DocBuilder, kids: Seq<(u16, usize)>, m: int, spaced: bool) -> Seq<Piece>
    decreases m,
{
    if m <= 0 {
        Seq::empty()
    } else {
        joined_layout(built, b, kids, m - 1, spaced) + (if spaced && m > 1 {
            seq![Piece::Blank]
        } else {
            Seq::empty()
        }) + doc_layout(b, built[kids[m - 1].1 as int] as int)
    }
}

/// Join node `i`'s code children with `sep` between consecutive children (one
/// blank when `spaced`, nothing otherwise) — the flat, never-breaking shape of
/// an aggregate bound, a theory operator application or upper bound, and the
/// tight `signature` / `weight`.
pub fn lower_joined(ctx: &Ctx, i: usize, spaced: bool, built: &Vec<NodeId>, b: &mut DocBuilder) -> (id: NodeId)
    requires
        env_ok(ctx, built@, *old(b)),
        i < ctx.cst.nodes@.len(),
    ensures
        lowered(ctx, built@, *old(b), *final(b), id),
        settled(*old(b), *final(b)),
        !final(b).full_spec() ==> doc_text(*final(b), id as int) == kids_text(
            ctx,
            built@,
            *old(b),
            i as int,
            ctx.cst.nodes@[i as int].count as int,
        ),
        ({
            let kids = code_kids(ctx.cst.nodes@, ctx.kinds, i as int, ctx.cst.nodes@[i as int].count as int);
            !final(b).full_spec() && all_uncommented(ctx, kids) ==> doc_layout(*final(b), id as int) == joined_layout(
                built@,
                *old(b),
                kids,
                kids.len() as int,
                spaced,
            )
        }),
{
    let kids = walk_code_children(ctx, i);
    let mut items: Vec<NodeId> = Vec::new();
    let ghost b0 = *b;
    let mut j: usize = 0;
    assert(items_text(*b, items@) =~= Seq::<Span>::empty());
    assert(items_layout(*b, items@) =~= Seq::<Piece>::empty());
    assert(kids@.subrange(0, 0) =~= Seq::<(u16, usize)>::empty());
    while j < kids.len()
        invariant
            env_ok(ctx, built@, *b),
            env_ok(ctx, built@, b0),
            b0 == *old(b),
            grows(*old(b), *b),
            settled(*old(b), *b),
            i < ctx.cst.nodes@.len(),
            j <= kids@.len(),
            kids_ok(ctx, i, kids@),
            ids_ok(items@, *b),
            !b.full_spec() ==> items_text(*b, items@) == code_text(ctx, built@, b0, kids@.subrange(0, j as int)),
            j == 0 <==> items@.len() == 0,
            !b.full_spec() && all_uncommented(ctx, kids@) ==> items_layout(*b, items@) == joined_layout(
                built@,
                b0,
                kids@,
                j as int,
                spaced,
            ),
        decreases kids@.len() - j,
    {
        let ghost bs = *b;
        let ghost i0 = items@;
        let c = kids[j].1;
        assert(built@[c as int] < b0.nodes_spec().len());
        if spaced && items.len() > 0 {
            let sp = e_space(ctx, b);
            items.push(sp);
        }
        let ghost bm = *b;
        let ghost im = items@;
        let d = child_doc(ctx, built, c, b);
        items.push(d);
        proof {
            if !b.full_spec() {
                lemma_items_text_push(*b, im, d);
                lemma_items_stable(bm, *b, im);
                if im.len() > i0.len() {
                    lemma_items_text_push(bm, i0, im.last());
                    assert(im == i0.push(im.last()));
                }
                lemma_items_stable(bs, bm, i0);
                assert(doc_text(bs, built@[c as int] as int) == doc_text(b0, built@[c as int] as int));
                assert(doc_text(bm, built@[c as int] as int) == doc_text(b0, built@[c as int] as int));
                let s1 = kids@.subrange(0, j + 1);
                assert(s1.drop_last() =~= kids@.subrange(0, j as int));
                assert(s1.last() == kids@[j as int]);
                lemma_items_layout_push(*b, im, d);
                if im.len() > i0.len() {
                    lemma_items_layout_push(bm, i0, im.last());
                }
                assert(doc_layout(bs, built@[c as int] as int) == doc_layout(b0, built@[c as int] as int));
                assert(doc_layout(bm, built@[c as int] as int) == doc_layout(b0, built@[c as int] as int));
                if all_uncommented(ctx, kids@) {
                    assert(uncommented(ctx, kids@[j as int].1 as int));
                    if im.len() > i0.len() {
                        assert(doc_layout(bm, im.last() as int) == seq![Piece::Blank]);
                    } else {
                        assert(im == i0);
                    }
                    assert(items_layout(*b, items@) =~= joined_layout(built@, b0, kids@, j + 1, spaced));
                }
            }
        }
        j = j + 1;
    }
    let ghost bf = *b;
    let id = e_seq(ctx, b, items.as_slice());
    proof {
        if !b.full_spec() {
            assert(kids@.subrange(0, j as int) =~= kids@);
            lemma_code_kids_text(ctx, built@, b0, i as int, ctx.cst.nodes@[i as int].count as int);
        }
    }
    id
}

/// Appending an item appends its text.
pub proof fn lemma_items_text_push(b: DocBuilder, s: Seq<NodeId>, x: NodeId)
    ensures
        items_text(b, s.push(x)) == items_text(b, s) + doc_text(b, x as int),
{
    assert(s.push(x).drop_last() =~= s);
    assert(s.push(x).last() == x);
}

/// A theory operator-application term: every child joined by one space, since
/// theory operators are never tightened.
pub fn lower_theory_unparsed_term(ctx: &Ctx, i: usize, built: &Vec<NodeId>, b: &mut DocBuilder) -> (id: NodeId)
    requires
        env_ok(ctx, built@, *old(b)),
        i < ctx.cst.nodes@.len(),
    ensures
        lowered(ctx, built@, *old(b), *final(b), id),
        settled(*old(b), *final(b)),
        !final(b).full_spec() ==> doc_text(*final(b), id as int) == kids_text(
            ctx,
            built@,
            *old(b),
            i as int,
            ctx.cst.nodes@[i as int].count as int,
        ),
        ({
            let kids = code_kids(ctx.cst.nodes@, ctx.kinds, i as int, ctx.cst.nodes@[i as int].count as int);
            !final(b).full_spec() && all_uncommented(ctx, kids) ==> doc_layout(*final(b), id as int) == joined_layout(built@, *old(b), kids, kids.len() as int, true)
        }),
{
    let spaced = theory_operator_spacing() == Sep::Spaced;
    lower_joined(ctx, i, spaced, built, b)
}

/// A theory atom's upper bound `op term`: the operator spaced from its term.
pub fn lower_theory_atom_upper(ctx: &Ctx, i: usize, built: &Vec<NodeId>, b: &mut DocBuilder) -> (id: NodeId)
    requires
        env_ok(ctx, built@, *old(b)),
        i < ctx.cst.nodes@.len(),
    ensures
        lowered(ctx, built@, *old(b), *final(b), id),
        settled(*old(b), *final(b)),
        !final(b).full_spec() ==> doc_text(*final(b), id as int) == kids_text(
            ctx,
            built@,
            *old(b),
            i as int,
            ctx.cst.nodes@[i as int].count as int,
        ),
        ({
            let kids = code_kids(ctx.cst.nodes@, ctx.kinds, i as int, ctx.cst.nodes@[i as int].count as int);
            !final(b).full_spec() && all_uncommented(ctx, kids) ==> doc_layout(*final(b), id as int) == joined_layout(built@, *old(b), kids, kids.len() as int, true)
        }),
{
    let spaced = theory_operator_spacing() == Sep::Spaced;
    lower_joined(ctx, i, spaced, built, b)
}

/// An aggregate bound — `lower` (`term relation?`) or `upper` (`relation? term`):
/// the relation spaced from its term.
pub fn lower_guard(ctx: &Ctx, i: usize, built: &Vec<NodeId>, b: &mut DocBuilder) -> (id: NodeId)
    requires
        env_ok(ctx, built@, *old(b)),
        i < ctx.cst.nodes@.len(),
    ensures
        lowered(ctx, built@, *old(b), *final(b), id),
        settled(*old(b), *final(b)),
        !final(b).full_spec() ==> doc_text(*final(b), id as int) == kids_text(
            ctx,
            built@,
            *old(b),
            i as int,
            ctx.cst.nodes@[i as int].count as int,
        ),
        ({
            let kids = code_kids(ctx.cst.nodes@, ctx.kinds, i as int, ctx.cst.nodes@[i as int].count as int);
            !final(b).full_spec() && all_uncommented(ctx, kids) ==> doc_layout(*final(b), id as int) == joined_layout(built@, *old(b), kids, kids.len() as int, true)
        }),
{
    lower_joined(ctx, i, true, built, b)
}

/// A node's children concatenated tight, so any source whitespace normalizes
/// away: a `signature` (`p/1`) or a `weight` (`2@1`).
pub fn lower_flat_tight(ctx: &Ctx, i: usize, built: &Vec<NodeId>, b: &mut DocBuilder) -> (id: NodeId)
    requires
        env_ok(ctx, built@, *old(b)),
        i < ctx.cst.nodes@.len(),
    ensures
        lowered(ctx, built@, *old(b), *final(b), id),
        settled(*old(b), *final(b)),
        !final(b).full_spec() ==> doc_text(*final(b), id as int) == kids_text(
            ctx,
            built@,
            *old(b),
            i as int,
            ctx.cst.nodes@[i as int].count as int,
        ),
        ({
            let kids = code_kids(ctx.cst.nodes@, ctx.kinds, i as int, ctx.cst.nodes@[i as int].count as int);
            !final(b).full_spec() && all_uncommented(ctx, kids) ==> doc_layout(*final(b), id as int) == joined_layout(built@, *old(b), kids, kids.len() as int, false)
        }),
{
    lower_joined(ctx, i, false, built, b)
}

/// A punctuated child as [`lower_punctuated`] lays it out: a child of kind
/// `both` with a blank on each side, one of kind `after` (when `use_after`)
/// followed by a blank, any other as its Doc from `built` in `b`.
pub open spec fn punctuated_kid_layout(
    ctx: &Ctx,
    built: Seq<NodeId>,
    b: DocBuilder,
    kid: (u16, usize),
    both: u16,
    after: u16,
    use_after: bool,
) -> Seq<Piece> {
    let l = doc_layout(b, built[kid.1 as int] as int);
    if kid_kind(ctx, kid) == both {
        seq![Piece::Blank] + l + seq![Piece::Blank]
    } else if use_after && kid_kind(ctx, kid) == after {
        l + seq![Piece::Blank]
    } else {
        l
    }
}

/// The layout of the children `kids[0..m)` punctuated as [`lower_punctuated`]
/// lays them out.
pub open spec fn punctuated_layout(
    ctx: &Ctx,
    built: Seq<NodeId>,
    b: DocBuilder,
    kids: Seq<(u16, usize)>,
    m: int,
    both: u16,
    after: u16,
    use_after: bool,
) -> Seq<Piece>
    decreases m,
{
    if m <= 0 {
        Seq::empty()
    } else {
        punctuated_layout(ctx, built, b, kids, m - 1, both, after, use_after) + punctuated_kid_layout(
            ctx,
            built,
            b,
            kids[m - 1],
            both,
            after,
            use_after,
        )
    }
}

/// A flat sequence over node `i`'s code children where a child of kind `spaced`
/// is spaced on both sides (when `before`) or followed by a space, and a child of
/// kind `after` is followed by a space: a comparison's relation (`X < Y`), a
/// theory definition's `:` and field `,`, an edge pair's `,`.
pub fn lower_punctuated(
    ctx: &Ctx,
    i: usize,
    both: u16,
    after: u16,
    use_after: bool,
    built: &Vec<NodeId>,
    b: &mut DocBuilder,
) -> (id: NodeId)
    requires
        env_ok(ctx, built@, *old(b)),
        i < ctx.cst.nodes@.len(),
    ensures
        lowered(ctx, built@, *old(b), *final(b), id),
        settled(*old(b), *final(b)),
        !final(b).full_spec() ==> doc_text(*final(b), id as int) == kids_text(
            ctx,
            built@,
            *old(b),
            i as int,
            ctx.cst.nodes@[i as int].count as int,
        ),
        ({
            let kids = code_kids(ctx.cst.nodes@, ctx.kinds, i as int, ctx.cst.nodes@[i as int].count as int);
            !final(b).full_spec() && all_uncommented(ctx, kids) ==> doc_layout(*final(b), id as int)
                == punctuated_layout(ctx, built@, *old(b), kids, kids.len() as int, both, after, use_after)
        }),
{
    let kids = walk_code_children(ctx, i);
    let mut items: Vec<NodeId> = Vec::new();
    let ghost b0 = *b;
    let mut j: usize = 0;
    assert(items_text(*b, items@) =~= Seq::<Span>::empty());
    assert(items_layout(*b, items@) =~= Seq::<Piece>::empty());
    assert(kids@.subrange(0, 0) =~= Seq::<(u16, usize)>::empty());
    while j < kids.len()
        invariant
            env_ok(ctx, built@, *b),
            env_ok(ctx, built@, b0),
            b0 == *old(b),
            grows(*old(b), *b),
            settled(*old(b), *b),
            i < ctx.cst.nodes@.len(),
            j <= kids@.len(),
            kids_ok(ctx, i, kids@),
            ids_ok(items@, *b),
            !b.full_spec() ==> items_text(*b, items@) == code_text(ctx, built@, b0, kids@.subrange(0, j as int)),
            !b.full_spec() && all_uncommented(ctx, kids@) ==> items_layout(*b, items@) == punctuated_layout(
                ctx,
                built@,
                b0,
                kids@,
                j as int,
                both,
                after,
                use_after,
            ),
        decreases kids@.len() - j,
    {
        let ghost bs = *b;
        let ghost i0 = items@;
        let c = kids[j].1;
        assert(built@[c as int] < b0.nodes_spec().len());
        let kind = ctx.cst.nodes[c].kind;
        let d = child_doc(ctx, built, c, b);
        let ghost bd = *b;
        if kind == both {
            let before = e_space(ctx, b);
            let ghost b1 = *b;
            let aft = e_space(ctx, b);
            items.push(before);
            items.push(d);
            items.push(aft);
            proof {
                if !b.full_spec() {
                    lemma_items_text_push(*b, i0, before);
                    lemma_items_text_push(*b, i0.push(before), d);
                    lemma_items_text_push(*b, i0.push(before).push(d), aft);
                    assert(items@ == i0.push(before).push(d).push(aft));
                    assert(doc_text(*b, before as int) == doc_text(b1, before as int));
                    assert(doc_text(*b, d as int) == doc_text(bd, d as int));
                    lemma_items_layout_push(*b, i0, before);
                    lemma_items_layout_push(*b, i0.push(before), d);
                    lemma_items_layout_push(*b, i0.push(before).push(d), aft);
                    assert(doc_layout(*b, before as int) == doc_layout(b1, before as int));
                    assert(doc_layout(*b, d as int) == doc_layout(bd, d as int));
                }
            }
        } else if use_after && kind == after {
            let aft = e_space(ctx, b);
            items.push(d);
            items.push(aft);
            proof {
                if !b.full_spec() {
                    lemma_items_text_push(*b, i0, d);
                    lemma_items_text_push(*b, i0.push(d), aft);
                    assert(items@ == i0.push(d).push(aft));
                    assert(doc_text(*b, d as int) == doc_text(bd, d as int));
                    lemma_items_layout_push(*b, i0, d);
                    lemma_items_layout_push(*b, i0.push(d), aft);
                    assert(doc_layout(*b, d as int) == doc_layout(bd, d as int));
                }
            }
        } else {
            items.push(d);
            proof {
                if !b.full_spec() {
                    lemma_items_text_push(*b, i0, d);
                    lemma_items_layout_push(*b, i0, d);
                }
            }
        }
        proof {
            if !b.full_spec() {
                lemma_items_stable(bs, *b, i0);
                assert(doc_text(bs, built@[c as int] as int) == doc_text(b0, built@[c as int] as int));
                let s1 = kids@.subrange(0, j + 1);
                assert(s1.drop_last() =~= kids@.subrange(0, j as int));
                assert(s1.last() == kids@[j as int]);
                assert(items_text(*b, items@) =~= items_text(bs, i0) + child_text(
                    ctx,
                    b0,
                    built@[c as int],
                    c as int,
                ));
                assert(doc_layout(bs, built@[c as int] as int) == doc_layout(b0, built@[c as int] as int));
                if all_uncommented(ctx, kids@) {
                    assert(uncommented(ctx, kids@[j as int].1 as int));
                    assert(kids@[j as int].1 == c);
                    assert(items_layout(*b, items@) =~= punctuated_layout(
                        ctx,
                        built@,
                        b0,
                        kids@,
                        j + 1,
                        both,
                        after,
                        use_after,
                    ));
                }
            }
        }
        j = j + 1;
    }
    let id = e_seq(ctx, b, items.as_slice());
    proof {
        if !b.full_spec() {
            assert(kids@.subrange(0, j as int) =~= kids@);
            lemma_code_kids_text(ctx, built@, b0, i as int, ctx.cst.nodes@[i as int].count as int);
        }
    }
    id
}

/// A comparison: a flat `term (relation term)+`, each relation spaced on both
/// sides.
pub fn lower_comparison(ctx: &Ctx, i: usize, built: &Vec<NodeId>, b: &mut DocBuilder) -> (id: NodeId)
    requires
        env_ok(ctx, built@, *old(b)),
        i < ctx.cst.nodes@.len(),
    ensures
        lowered(ctx, built@, *old(b), *final(b), id),
        settled(*old(b), *final(b)),
        !final(b).full_spec() ==> doc_text(*final(b), id as int) == kids_text(
            ctx,
            built@,
            *old(b),
            i as int,
            ctx.cst.nodes@[i as int].count as int,
        ),
        ({
            let kids = code_kids(ctx.cst.nodes@, ctx.kinds, i as int, ctx.cst.nodes@[i as int].count as int);
            !final(b).full_spec() && all_uncommented(ctx, kids) ==> doc_layout(*final(b), id as int) == punctuated_layout(ctx, built@, *old(b), kids, kids.len() as int, ctx.kinds.relation, 0, false)
        }),
{
    lower_punctuated(ctx, i, ctx.kinds.relation, 0, false, built, b)
}

/// A theory operator definition `op : priority , arity [, assoc]`: the `:`
/// spaced on both sides, each field `,` followed by a space. FLAT.
pub fn lower_theory_operator_definition(ctx: &Ctx, i: usize, built: &Vec<NodeId>, b: &mut DocBuilder) -> (id: NodeId)
    requires
        env_ok(ctx, built@, *old(b)),
        i < ctx.cst.nodes@.len(),
    ensures
        lowered(ctx, built@, *old(b), *final(b), id),
        settled(*old(b), *final(b)),
        !final(b).full_spec() ==> doc_text(*final(b), id as int) == kids_text(
            ctx,
            built@,
            *old(b),
            i as int,
            ctx.cst.nodes@[i as int].count as int,
        ),
        ({
            let kids = code_kids(ctx.cst.nodes@, ctx.kinds, i as int, ctx.cst.nodes@[i as int].count as int);
            !final(b).full_spec() && all_uncommented(ctx, kids) ==> doc_layout(*final(b), id as int) == punctuated_layout(
                ctx,
                built@,
                *old(b),
                kids,
                kids.len() as int,
                ctx.kinds.colon,
                ctx.kinds.comma,
                true,
            )
        }),
{
    lower_punctuated(ctx, i, ctx.kinds.colon, ctx.kinds.comma, true, built, b)
}

/// A theory atom definition `&name/arity : term, [{ops}, guard,] type`: `&name/arity`
/// tight, the `:` spaced on both sides, each field `,` followed by a space. FLAT.
pub fn lower_theory_atom_definition(ctx: &Ctx, i: usize, built: &Vec<NodeId>, b: &mut DocBuilder) -> (id: NodeId)
    requires
        env_ok(ctx, built@, *old(b)),
        i < ctx.cst.nodes@.len(),
    ensures
        lowered(ctx, built@, *old(b), *final(b), id),
        settled(*old(b), *final(b)),
        !final(b).full_spec() ==> doc_text(*final(b), id as int) == kids_text(
            ctx,
            built@,
            *old(b),
            i as int,
            ctx.cst.nodes@[i as int].count as int,
        ),
        ({
            let kids = code_kids(ctx.cst.nodes@, ctx.kinds, i as int, ctx.cst.nodes@[i as int].count as int);
            !final(b).full_spec() && all_uncommented(ctx, kids) ==> doc_layout(*final(b), id as int) == punctuated_layout(
                ctx,
                built@,
                *old(b),
                kids,
                kids.len() as int,
                ctx.kinds.colon,
                ctx.kinds.comma,
                true,
            )
        }),
{
    lower_punctuated(ctx, i, ctx.kinds.colon, ctx.kinds.comma, true, built, b)
}

/// The layouts of the children `kids[0..m)` with each `,` followed by a blank:
/// every child as its Doc from `built` in `b`.
pub open spec fn comma_spaced_layout(ctx: &Ctx, built: Seq<NodeId>, b: DocBuilder, kids: Seq<(u16, usize)>, m: int) -> Seq<Piece>
    decreases m,
{
    if m <= 0 {
        Seq::empty()
    } else {
        comma_spaced_layout(ctx, built, b, kids, m - 1) + doc_layout(b, built[kids[m - 1].1 as int] as int) + (if kid_kind(
            ctx,
            kids[m - 1],
        ) == ctx.kinds.comma {
            seq![Piece::Blank]
        } else {
            Seq::empty()
        })
    }
}

/// The layouts of a run of theory operators `kids[0..m)`: a `,` followed by a
/// blank, an operator led by a blank when an operator precedes it.
pub open spec fn operators_layout(ctx: &Ctx, built: Seq<NodeId>, b: DocBuilder, kids: Seq<(u16, usize)>, m: int) -> Seq<Piece>
    decreases m,
{
    if m <= 0 {
        Seq::empty()
    } else {
        let l = doc_layout(b, built[kids[m - 1].1 as int] as int);
        operators_layout(ctx, built, b, kids, m - 1) + if kid_kind(ctx, kids[m - 1]) == ctx.kinds.comma {
            l + seq![Piece::Blank]
        } else if m > 1 && kid_kind(ctx, kids[m - 2]) != ctx.kinds.comma {
            seq![Piece::Blank] + l
        } else {
            l
        }
    }
}

/// An edge pair `term , term`: the `,` followed by a non-breaking space. FLAT.
pub fn lower_edge_pair(ctx: &Ctx, i: usize, built: &Vec<NodeId>, b: &mut DocBuilder) -> (id: NodeId)
    requires
        env_ok(ctx, built@, *old(b)),
        i < ctx.cst.nodes@.len(),
    ensures
        lowered(ctx, built@, *old(b), *final(b), id),
        settled(*old(b), *final(b)),
        !final(b).full_spec() ==> doc_text(*final(b), id as int) == kids_text(
            ctx,
            built@,
            *old(b),
            i as int,
            ctx.cst.nodes@[i as int].count as int,
        ),
        ({
            let kids = code_kids(ctx.cst.nodes@, ctx.kinds, i as int, ctx.cst.nodes@[i as int].count as int);
            !final(b).full_spec() && all_uncommented(ctx, kids) ==> doc_layout(*final(b), id as int) == comma_spaced_layout(
                ctx,
                built@,
                *old(b),
                kids,
                kids.len() as int,
            )
        }),
{
    let kids = walk_code_children(ctx, i);
    let mut items: Vec<NodeId> = Vec::new();
    let ghost b0 = *b;
    let mut j: usize = 0;
    assert(items_text(*b, items@) =~= Seq::<Span>::empty());
    assert(items_layout(*b, items@) =~= Seq::<Piece>::empty());
    assert(kids@.subrange(0, 0) =~= Seq::<(u16, usize)>::empty());
    while j < kids.len()
        invariant
            env_ok(ctx, built@, *b),
            env_ok(ctx, built@, b0),
            b0 == *old(b),
            grows(*old(b), *b),
            settled(*old(b), *b),
            i < ctx.cst.nodes@.len(),
            j <= kids@.len(),
            kids_ok(ctx, i, kids@),
            ids_ok(items@, *b),
            !b.full_spec() ==> items_text(*b, items@) == code_text(ctx, built@, b0, kids@.subrange(0, j as int)),
            !b.full_spec() && all_uncommented(ctx, kids@) ==> items_layout(*b, items@) == comma_spaced_layout(
                ctx,
                built@,
                b0,
                kids@,
                j as int,
            ),
        decreases kids@.len() - j,
    {
        let ghost bs = *b;
        let ghost i0 = items@;
        let c = kids[j].1;
        assert(built@[c as int] < b0.nodes_spec().len());
        let d = child_doc(ctx, built, c, b);
        let ghost bd = *b;
        items.push(d);
        if ctx.cst.nodes[c].kind == ctx.kinds.comma {
            let sp = e_space(ctx, b);
            items.push(sp);
            proof {
                if !b.full_spec() {
                    lemma_items_text_push(*b, i0, d);
                    lemma_items_text_push(*b, i0.push(d), sp);
                    assert(items@ == i0.push(d).push(sp));
                    assert(doc_text(*b, d as int) == doc_text(bd, d as int));
                    lemma_items_layout_push(*b, i0, d);
                    lemma_items_layout_push(*b, i0.push(d), sp);
                    assert(doc_layout(*b, d as int) == doc_layout(bd, d as int));
                }
            }
        } else {
            proof {
                if !b.full_spec() {
                    lemma_items_text_push(*b, i0, d);
                    lemma_items_layout_push(*b, i0, d);
                }
            }
        }
        proof {
            if !b.full_spec() {
                lemma_items_stable(bs, *b, i0);
                assert(doc_text(bs, built@[c as int] as int) == doc_text(b0, built@[c as int] as int));
                let s1 = kids@.subrange(0, j + 1);
                assert(s1.drop_last() =~= kids@.subrange(0, j as int));
                assert(s1.last() == kids@[j as int]);
                assert(items_text(*b, items@) =~= items_text(bs, i0) + child_text(
                    ctx,
                    b0,
                    built@[c as int],
                    c as int,
                ));
                assert(doc_layout(bs, built@[c as int] as int) == doc_layout(b0, built@[c as int] as int));
                if all_uncommented(ctx, kids@) {
                    assert(uncommented(ctx, kids@[j as int].1 as int));
                    assert(kids@[j as int].1 == c);
                    assert(items_layout(*b, items@) =~= comma_spaced_layout(ctx, built@, b0, kids@, j + 1));
                }
            }
        }
        j = j + 1;
    }
    let id = e_seq(ctx, b, items.as_slice());
    proof {
        if !b.full_spec() {
            assert(kids@.subrange(0, j as int) =~= kids@);
            lemma_code_kids_text(ctx, built@, b0, i as int, ctx.cst.nodes@[i as int].count as int);
        }
    }
    id
}

/// A run of theory operators: adjacent operators space-separated (`+ +` never
/// fuses to `++`); in a comma-separated guard list (`{<=, >=}`) the `,` hugs its
/// left operator and a space follows it.
pub fn lower_theory_operators(ctx: &Ctx, i: usize, built: &Vec<NodeId>, b: &mut DocBuilder) -> (id: NodeId)
    requires
        env_ok(ctx, built@, *old(b)),
        i < ctx.cst.nodes@.len(),
    ensures
        lowered(ctx, built@, *old(b), *final(b), id),
        settled(*old(b), *final(b)),
        !final(b).full_spec() ==> doc_text(*final(b), id as int) == kids_text(
            ctx,
            built@,
            *old(b),
            i as int,
            ctx.cst.nodes@[i as int].count as int,
        ),
        ({
            let kids = code_kids(ctx.cst.nodes@, ctx.kinds, i as int, ctx.cst.nodes@[i as int].count as int);
            !final(b).full_spec() && all_uncommented(ctx, kids) ==> doc_layout(*final(b), id as int) == operators_layout(
                ctx,
                built@,
                *old(b),
                kids,
                kids.len() as int,
            )
        }),
{
    let kids = walk_code_children(ctx, i);
    let mut items: Vec<NodeId> = Vec::new();
    let ghost b0 = *b;
    let mut need_space = false;
    let mut j: usize = 0;
    assert(items_text(*b, items@) =~= Seq::<Span>::empty());
    assert(items_layout(*b, items@) =~= Seq::<Piece>::empty());
    assert(kids@.subrange(0, 0) =~= Seq::<(u16, usize)>::empty());
    while j < kids.len()
        invariant
            env_ok(ctx, built@, *b),
            env_ok(ctx, built@, b0),
            b0 == *old(b),
            grows(*old(b), *b),
            settled(*old(b), *b),
            i < ctx.cst.nodes@.len(),
            j <= kids@.len(),
            kids_ok(ctx, i, kids@),
            ids_ok(items@, *b),
            !b.full_spec() ==> items_text(*b, items@) == code_text(ctx, built@, b0, kids@.subrange(0, j as int)),
            !b.full_spec() && all_uncommented(ctx, kids@) ==> items_layout(*b, items@) == operators_layout(
                ctx,
                built@,
                b0,
                kids@,
                j as int,
            ),
            need_space <==> (j > 0 && kid_kind(ctx, kids@[j - 1]) != ctx.kinds.comma),
        decreases kids@.len() - j,
    {
        let ghost bs = *b;
        let ghost i0 = items@;
        let c = kids[j].1;
        assert(built@[c as int] < b0.nodes_spec().len());
        let d = child_doc(ctx, built, c, b);
        let ghost bd = *b;
        if ctx.cst.nodes[c].kind == ctx.kinds.comma {
            let sp = e_space(ctx, b);
            items.push(d);
            items.push(sp);
            need_space = false;
            proof {
                if !b.full_spec() {
                    lemma_items_text_push(*b, i0, d);
                    lemma_items_text_push(*b, i0.push(d), sp);
                    assert(items@ == i0.push(d).push(sp));
                    assert(doc_text(*b, d as int) == doc_text(bd, d as int));
                    lemma_items_layout_push(*b, i0, d);
                    lemma_items_layout_push(*b, i0.push(d), sp);
                    assert(doc_layout(*b, d as int) == doc_layout(bd, d as int));
                }
            }
        } else {
            if need_space {
                let sp = e_space(ctx, b);
                items.push(sp);
                items.push(d);
                proof {
                    if !b.full_spec() {
                        lemma_items_text_push(*b, i0, sp);
                        lemma_items_text_push(*b, i0.push(sp), d);
                        assert(items@ == i0.push(sp).push(d));
                        assert(doc_text(*b, d as int) == doc_text(bd, d as int));
                        lemma_items_layout_push(*b, i0, sp);
                        lemma_items_layout_push(*b, i0.push(sp), d);
                        assert(doc_layout(*b, d as int) == doc_layout(bd, d as int));
                    }
                }
            } else {
                items.push(d);
                proof {
                    if !b.full_spec() {
                        lemma_items_text_push(*b, i0, d);
                        lemma_items_layout_push(*b, i0, d);
                    }
                }
            }
            need_space = true;
        }
        proof {
            if !b.full_spec() {
                lemma_items_stable(bs, *b, i0);
                assert(doc_text(bs, built@[c as int] as int) == doc_text(b0, built@[c as int] as int));
                let s1 = kids@.subrange(0, j + 1);
                assert(s1.drop_last() =~= kids@.subrange(0, j as int));
                assert(s1.last() == kids@[j as int]);
                assert(items_text(*b, items@) =~= items_text(bs, i0) + child_text(
                    ctx,
                    b0,
                    built@[c as int],
                    c as int,
                ));
                assert(doc_layout(bs, built@[c as int] as int) == doc_layout(b0, built@[c as int] as int));
                if all_uncommented(ctx, kids@) {
                    assert(uncommented(ctx, kids@[j as int].1 as int));
                    assert(kids@[j as int].1 == c);
                    assert(items_layout(*b, items@) =~= operators_layout(ctx, built@, b0, kids@, j + 1));
                }
            }
        }
        j = j + 1;
    }
    let id = e_seq(ctx, b, items.as_slice());
    proof {
        if !b.full_spec() {
            assert(kids@.subrange(0, j as int) =~= kids@);
            lemma_code_kids_text(ctx, built@, b0, i as int, ctx.cst.nodes@[i as int].count as int);
        }
    }
    id
}

/// Whether a signed atom's child is a `not` / `not not` sign, spaced from its
/// operand.
pub open spec fn sign_spaced(ctx: &Ctx, kid: (u16, usize)) -> bool {
    &&& kid.0 != 0
    &&& kid.0 == ctx.fields.sign
    &&& node_sliceable(ctx, kid.1 as int)
    &&& (node_chars(ctx, kid.1 as int) == "not"@ || node_chars(ctx, kid.1 as int) == "not not"@)
}

/// The layouts of a signed atom's children `kids[0..m)`: each as its Doc from
/// `built` in `b`, a spaced sign followed by a blank.
pub open spec fn signed_layout(ctx: &Ctx, built: Seq<NodeId>, b: DocBuilder, kids: Seq<(u16, usize)>, m: int) -> Seq<Piece>
    decreases m,
{
    if m <= 0 {
        Seq::empty()
    } else {
        signed_layout(ctx, built, b, kids, m - 1) + doc_layout(b, built[kids[m - 1].1 as int] as int) + (if sign_spaced(
            ctx,
            kids[m - 1],
        ) {
            seq![Piece::Blank]
        } else {
            Seq::empty()
        })
    }
}

/// A signed atom: an optional `sign` on an atom; `not` / `not not` is spaced
/// from its atom, a classical sign abuts it.
pub fn lower_signed_atom(ctx: &Ctx, i: usize, built: &Vec<NodeId>, b: &mut DocBuilder) -> (id: NodeId)
    requires
        env_ok(ctx, built@, *old(b)),
        i < ctx.cst.nodes@.len(),
    ensures
        lowered(ctx, built@, *old(b), *final(b), id),
        settled(*old(b), *final(b)),
        !final(b).full_spec() ==> doc_text(*final(b), id as int) == kids_text(
            ctx,
            built@,
            *old(b),
            i as int,
            ctx.cst.nodes@[i as int].count as int,
        ),
        ({
            let kids = code_kids(ctx.cst.nodes@, ctx.kinds, i as int, ctx.cst.nodes@[i as int].count as int);
            !final(b).full_spec() && all_uncommented(ctx, kids) ==> doc_layout(*final(b), id as int) == signed_layout(
                ctx,
                built@,
                *old(b),
                kids,
                kids.len() as int,
            )
        }),
{
    let kids = walk_code_children(ctx, i);
    let mut items: Vec<NodeId> = Vec::new();
    let ghost b0 = *b;
    let mut j: usize = 0;
    assert(items_text(*b, items@) =~= Seq::<Span>::empty());
    assert(items_layout(*b, items@) =~= Seq::<Piece>::empty());
    assert(kids@.subrange(0, 0) =~= Seq::<(u16, usize)>::empty());
    while j < kids.len()
        invariant
            env_ok(ctx, built@, *b),
            env_ok(ctx, built@, b0),
            b0 == *old(b),
            grows(*old(b), *b),
            settled(*old(b), *b),
            i < ctx.cst.nodes@.len(),
            j <= kids@.len(),
            kids_ok(ctx, i, kids@),
            ids_ok(items@, *b),
            !b.full_spec() ==> items_text(*b, items@) == code_text(ctx, built@, b0, kids@.subrange(0, j as int)),
            !b.full_spec() && all_uncommented(ctx, kids@) ==> items_layout(*b, items@) == signed_layout(
                ctx,
                built@,
                b0,
                kids@,
                j as int,
            ),
            forall|q: int| 0 <= q < kids@.len() ==> (#[trigger] kids@[q]).0 == ctx.cst.nodes@[kids@[q].1 as int].field,
        decreases kids@.len() - j,
    {
        let ghost bs = *b;
        let ghost i0 = items@;
        let (field, c) = kids[j];
        assert(built@[c as int] < b0.nodes_spec().len());
        let d = child_doc(ctx, built, c, b);
        let ghost bd = *b;
        items.push(d);
        let mut spaced = false;
        if field != 0 && field == ctx.fields.sign {
            spaced = match node_text(ctx, c) {
                Some(t) => sign_spacing(t) == Sep::Spaced,
                None => false,
            };
        }
        if spaced {
            let sp = e_space(ctx, b);
            items.push(sp);
            proof {
                if !b.full_spec() {
                    lemma_items_text_push(*b, i0, d);
                    lemma_items_text_push(*b, i0.push(d), sp);
                    assert(items@ == i0.push(d).push(sp));
                    assert(doc_text(*b, d as int) == doc_text(bd, d as int));
                    lemma_items_layout_push(*b, i0, d);
                    lemma_items_layout_push(*b, i0.push(d), sp);
                    assert(doc_layout(*b, d as int) == doc_layout(bd, d as int));
                }
            }
        } else {
            proof {
                if !b.full_spec() {
                    lemma_items_text_push(*b, i0, d);
                    lemma_items_layout_push(*b, i0, d);
                }
            }
        }
        proof {
            if !b.full_spec() {
                lemma_items_stable(bs, *b, i0);
                assert(doc_text(bs, built@[c as int] as int) == doc_text(b0, built@[c as int] as int));
                let s1 = kids@.subrange(0, j + 1);
                assert(s1.drop_last() =~= kids@.subrange(0, j as int));
                assert(s1.last() == kids@[j as int]);
                assert(items_text(*b, items@) =~= items_text(bs, i0) + child_text(
                    ctx,
                    b0,
                    built@[c as int],
                    c as int,
                ));
                assert(doc_layout(bs, built@[c as int] as int) == doc_layout(b0, built@[c as int] as int));
                assert(kids@[j as int] == (field, c));
                assert(spaced == sign_spaced(ctx, kids@[j as int]));
                if all_uncommented(ctx, kids@) {
                    assert(uncommented(ctx, kids@[j as int].1 as int));
                    assert(items_layout(*b, items@) =~= signed_layout(ctx, built@, b0, kids@, j + 1));
                }
            }
        }
        j = j + 1;
    }
    let id = e_seq(ctx, b, items.as_slice());
    proof {
        if !b.full_spec() {
            assert(kids@.subrange(0, j as int) =~= kids@);
            lemma_code_kids_text(ctx, built@, b0, i as int, ctx.cst.nodes@[i as int].count as int);
        }
    }
    id
}


/// Inject node `i`'s dangling comments into `parts` and assemble them.
pub fn finish_parts(
    ctx: &Ctx,
    i: usize,
    parts: &mut Vec<Part>,
    neck_tail_fuses: bool,
    built: &Vec<NodeId>,
    b: &mut DocBuilder,
) -> (id: NodeId)
    requires
        env_ok(ctx, built@, *old(b)),
        i < ctx.cst.nodes@.len(),
        parts_ok(old(parts)@, *old(b)),
    ensures
        lowered(ctx, built@, *old(b), *final(b), id),
        settled(*old(b), *final(b)),
        !final(b).full_spec() && ctx.at.by_anchor@[i as int].dangling@.len() == 0 ==> doc_text(*final(b), id as int)
            == parts_text(*old(b), old(parts)@, 0, old(parts)@.len() as int),
        !final(b).full_spec() && ctx.at.by_anchor@[i as int].dangling@.len() == 0 && old(parts)@.len() > 0
            ==> lays_first(doc_layout(*final(b), id as int), doc_layout(*old(b), old(parts)@[0].doc as int)),
        !final(b).full_spec() && ctx.at.by_anchor@[i as int].dangling@.len() == 0 && no_openers(old(parts)@)
            ==> doc_layout(*final(b), id as int) == parts_layout(*old(b), old(parts)@, 0, old(parts)@.len() as int),
        !final(b).full_spec() && ctx.at.by_anchor@[i as int].dangling@.len() == 0 && no_necks(old(parts)@)
            ==> doc_layout(*final(b), id as int) == parts_layout(*old(b), old(parts)@, 0, old(parts)@.len() as int),
        !final(b).full_spec() && ctx.at.by_anchor@[i as int].dangling@.len() == 0 && classify_spec(old(parts)@) is LeadingNeck
            && old(parts)@.len() > 1 ==> lays_first(
            doc_layout(*final(b), id as int),
            doc_layout(*old(b), old(parts)@[0].doc as int) + seq![Piece::Blank],
        ),
        !final(b).full_spec() && ctx.at.by_anchor@[i as int].dangling@.len() == 0 && classify_spec(old(parts)@) is TrailingNeck
            ==> lays_first(
            doc_layout(*final(b), id as int),
            parts_layout(*old(b), old(parts)@, 0, classify_spec(old(parts)@)->TrailingNeck_neck as int) + seq![Piece::Blank]
                + doc_layout(*old(b), old(parts)@[classify_spec(old(parts)@)->TrailingNeck_neck as int].doc as int),
        ),
{
    let (indent, neck) = nest_deltas(ctx.style);
    push_dangling(ctx, i, parts, b);
    proof {
        if ctx.at.by_anchor@[i as int].dangling@.len() == 0 && no_openers(parts@) {
            lemma_separated_spine(parts@);
        }
    }
    assemble(ctx, b, parts.as_slice(), indent, neck, neck_tail_fuses)
}

/// Detects a source blank line before an element of an exploded separated
/// sequence, off the source rows. The row anchor is threaded through every child
/// (elements, separators and re-injected comments), and a blank seen before a
/// non-element child is carried to the element it precedes.
pub struct ElementBlanks {
    pub prev_end_row: Option<usize>,
    pub carry: bool,
}

impl ElementBlanks {
    /// No child seen yet.
    pub fn new() -> (r: Self)
        ensures
            r.prev_end_row is None,
            !r.carry,
    {
        ElementBlanks { prev_end_row: None, carry: false }
    }

    /// Whether a source blank line lies between the previous child and `child`
    /// (a gap of two or more rows), advancing the anchor to `child`'s end row.
    pub fn gap_blank(&mut self, child: CstNode) -> (r: bool)
        ensures
            r == (match old(self).prev_end_row {
                Some(p) => child.start_row >= p + 2,
                None => false,
            }),
            final(self).prev_end_row == Some(child.end_row),
            final(self).carry == old(self).carry,
    {
        let blank = match self.prev_end_row {
            Some(p) => child.start_row >= p && child.start_row - p >= 2,
            None => false,
        };
        self.prev_end_row = Some(child.end_row);
        blank
    }

    /// Note a non-element child: advance the anchor and accumulate any blank
    /// before it, owed to the next element.
    pub fn note(&mut self, child: CstNode)
        ensures
            final(self).prev_end_row == Some(child.end_row),
            final(self).carry == (old(self).carry || match old(self).prev_end_row {
                Some(p) => child.start_row >= p + 2,
                None => false,
            }),
    {
        let g = self.gap_blank(child);
        self.carry = self.carry || g;
    }

    /// Whether a source blank precedes this element — a gap directly before it,
    /// or one carried from a preceding separator / comment; consumes the carry.
    pub fn blank_before(&mut self, child: CstNode) -> (r: bool)
        ensures
            r == (old(self).carry || match old(self).prev_end_row {
                Some(p) => child.start_row >= p + 2,
                None => false,
            }),
            final(self).prev_end_row == Some(child.end_row),
            !final(self).carry,
    {
        let g = self.gap_blank(child);
        let blank = g || self.carry;
        self.carry = false;
        blank
    }
}

/// The child doc of an element, preceded by a blank-line marker when a source
/// blank precedes it.
pub fn element_doc(
    ctx: &Ctx,
    built: &Vec<NodeId>,
    c: usize,
    blanks: &mut ElementBlanks,
    b: &mut DocBuilder,
) -> (id: NodeId)
    requires
        env_ok(ctx, built@, *old(b)),
        c < ctx.cst.nodes@.len(),
    ensures
        lowered(ctx, built@, *old(b), *final(b), id),
        settled(*old(b), *final(b)),
        !final(b).full_spec() ==> doc_text(*final(b), id as int) == child_text(ctx, *old(b), built@[c as int], c as int),
        !final(b).full_spec() && ctx.at.by_anchor@[c as int].leading@.len() == 0
            && ctx.at.by_anchor@[c as int].trailing@.len() == 0 ==> doc_layout(*final(b), id as int) == doc_layout(
            *old(b),
            built@[c as int] as int,
        ),
{
    let blank = blanks.blank_before(ctx.cst.nodes[c]);
    let ghost b0 = *b;
    let d = child_doc(ctx, built, c, b);
    if blank {
        let ghost b1 = *b;
        let bl = e_blank_line(ctx, b);
        let ghost b2 = *b;
        let r = e_seq(ctx, b, &[bl, d]);
        proof {
            if !b.full_spec() {
                lemma_items_text_2(b2, bl, d);
                assert(doc_text(b2, d as int) == doc_text(b1, d as int));
                lemma_items_layout_2(b2, bl, d);
                assert(doc_layout(b2, d as int) == doc_layout(b1, d as int));
                assert(Seq::<Piece>::empty() + doc_layout(b2, d as int) =~= doc_layout(b2, d as int));
            }
        }
        r
    } else {
        d
    }
}

/// The text of node `i`'s first `j` children that are not trivia comments,
/// each as it contributes with its Doc from `built` in `b` (see [`child_text`]).
pub open spec fn kids_text(ctx: &Ctx, built: Seq<NodeId>, b: DocBuilder, i: int, j: int) -> Seq<Span>
    decreases j,
{
    if j <= 0 {
        Seq::empty()
    } else {
        let c = child_of(ctx.cst.nodes@, i, j - 1);
        let n = ctx.cst.nodes@[c];
        kids_text(ctx, built, b, i, j - 1) + if n.kind == ctx.kinds.line_comment || n.kind
            == ctx.kinds.block_comment {
            Seq::<Span>::empty()
        } else {
            child_text(ctx, b, built[c], c)
        }
    }
}

/// One more child: a comment adds nothing, any other child its text.
pub proof fn lemma_kids_text_step(ctx: &Ctx, built: Seq<NodeId>, b: DocBuilder, i: int, j: int)
    requires
        0 <= j,
    ensures
        kids_text(ctx, built, b, i, j + 1) == kids_text(ctx, built, b, i, j) + if ctx.cst.nodes@[child_of(
            ctx.cst.nodes@,
            i,
            j,
        )].kind == ctx.kinds.line_comment || ctx.cst.nodes@[child_of(ctx.cst.nodes@, i, j)].kind
            == ctx.kinds.block_comment {
            Seq::<Span>::empty()
        } else {
            child_text(ctx, b, built[child_of(ctx.cst.nodes@, i, j)], child_of(ctx.cst.nodes@, i, j))
        },
{
    assert((j + 1) - 1 == j);
}

/// Parts with the same Docs have the same text, whatever their roles.
pub proof fn lemma_parts_text_docs(b: DocBuilder, s1: Seq<Part>, s2: Seq<Part>, lo: int, hi: int)
    requires
        forall|k: int| lo <= k < hi ==> (#[trigger] s1[k]).doc == s2[k].doc,
    ensures
        parts_text(b, s1, lo, hi) == parts_text(b, s2, lo, hi),
    decreases hi - lo,
{
    if lo < hi {
        assert(s1[hi - 1].doc == s2[hi - 1].doc);
        lemma_parts_text_docs(b, s1, s2, lo, hi - 1);
    }
}

/// Appending a part appends its Doc's text.
pub proof fn lemma_parts_text_push(b: DocBuilder, s: Seq<Part>, p: Part)
    ensures
        parts_text(b, s.push(p), 0, s.len() + 1int) == parts_text(b, s, 0, s.len() as int) + doc_text(b, p.doc as int),
{
    lemma_parts_text_docs(b, s.push(p), s, 0, s.len() as int);
    assert(s.push(p)[s.len() as int] == p);
}

/// The text of the children `kids` (each with its Doc from `built` in `b`, see
/// [`child_text`]), concatenated in order.
pub open spec fn code_text(ctx: &Ctx, built: Seq<NodeId>, b: DocBuilder, kids: Seq<(u16, usize)>) -> Seq<Span>
    decreases kids.len(),
{
    if kids.len() == 0 {
        Seq::empty()
    } else {
        code_text(ctx, built, b, kids.drop_last()) + child_text(ctx, b, built[kids.last().1 as int], kids.last().1 as int)
    }
}

/// Node `i`'s children that are not comments have, together, the text that
/// [`kids_text`] gives its children.
pub proof fn lemma_code_kids_text(ctx: &Ctx, built: Seq<NodeId>, b: DocBuilder, i: int, j: int)
    requires
        0 <= j,
        0 <= i < ctx.cst.nodes@.len(),
        ctx.cst.wf(),
        j <= ctx.cst.nodes@[i].count,
    ensures
        code_text(ctx, built, b, code_kids(ctx.cst.nodes@, ctx.kinds, i, j)) == kids_text(ctx, built, b, i, j),
    decreases j,
{
    if j > 0 {
        lemma_code_kids_text(ctx, built, b, i, j - 1);
        crate::cst::lemma_children_in_bounds(ctx.cst.nodes@, i);
        lemma_kids_text_step(ctx, built, b, i, j - 1);
        let ns = ctx.cst.nodes@;
        let c = ns[i].first + j - 1;
        assert(c == child_of(ns, i, j - 1));
        let prev = code_kids(ns, ctx.kinds, i, j - 1);
        if ns[c].kind == ctx.kinds.line_comment || ns[c].kind == ctx.kinds.block_comment {
            assert(code_kids(ns, ctx.kinds, i, j) =~= prev);
            assert(kids_text(ctx, built, b, i, j - 1) + Seq::<Span>::empty() =~= kids_text(ctx, built, b, i, j - 1));
        } else {
            let x = (ns[c].field, c as usize);
            assert(code_kids(ns, ctx.kinds, i, j) =~= prev.push(x));
            assert(prev.push(x).drop_last() =~= prev);
        }
    }
}

/// The text of consecutive runs of children is the text of their union.
pub proof fn lemma_code_text_concat(ctx: &Ctx, built: Seq<NodeId>, b: DocBuilder, x: Seq<(u16, usize)>, y: Seq<(u16, usize)>)
    ensures
        code_text(ctx, built, b, x + y) == code_text(ctx, built, b, x) + code_text(ctx, built, b, y),
    decreases y.len(),
{
    if y.len() == 0 {
        assert(x + y =~= x);
        assert(code_text(ctx, built, b, y) =~= Seq::<Span>::empty());
        assert(code_text(ctx, built, b, x) + Seq::<Span>::empty() =~= code_text(ctx, built, b, x));
    } else {
        assert((x + y).drop_last() =~= x + y.drop_last());
        assert((x + y).last() == y.last());
        lemma_code_text_concat(ctx, built, b, x, y.drop_last());
    }
}

/// Children whose Docs were built before `b0` have the same text in any `b1`
/// that keeps `b0`'s texts.
pub proof fn lemma_code_text_stable(
    ctx: &Ctx,
    built: Seq<NodeId>,
    b0: DocBuilder,
    b1: DocBuilder,
    kids: Seq<(u16, usize)>,
)
    requires
        stable(b0, b1),
        forall|q: int| 0 <= q < kids.len() ==> 0 <= (#[trigger] kids[q]).1 < built.len(),
        ids_ok(built, b0),
    ensures
        code_text(ctx, built, b1, kids) == code_text(ctx, built, b0, kids),
    decreases kids.len(),
{
    if kids.len() > 0 {
        let c = kids.last().1 as int;
        assert(kids.last() == kids[kids.len() - 1]);
        assert(built[c] < b0.nodes_spec().len());
        assert(doc_text(b1, built[c] as int) == doc_text(b0, built[c] as int));
        lemma_code_text_stable(ctx, built, b0, b1, kids.drop_last());
    }
}

/// Parts each holding the text of the matching child of `kids` have, together,
/// the children's text.
pub proof fn lemma_parts_code_text(
    ctx: &Ctx,
    built: Seq<NodeId>,
    b0: DocBuilder,
    b: DocBuilder,
    parts: Seq<Part>,
    kids: Seq<(u16, usize)>,
    hi: int,
)
    requires
        0 <= hi <= parts.len(),
        hi <= kids.len(),
        forall|q: int|
            0 <= q < hi ==> doc_text(b, (#[trigger] parts[q]).doc as int) == child_text(
                ctx,
                b0,
                built[kids[q].1 as int],
                kids[q].1 as int,
            ),
    ensures
        parts_text(b, parts, 0, hi) == code_text(ctx, built, b0, kids.subrange(0, hi)),
    decreases hi,
{
    if hi > 0 {
        lemma_parts_code_text(ctx, built, b0, b, parts, kids, hi - 1);
        assert(kids.subrange(0, hi).drop_last() =~= kids.subrange(0, hi - 1));
        assert(kids.subrange(0, hi).last() == kids[hi - 1]);
        assert(doc_text(b, parts[hi - 1].doc as int) == child_text(
            ctx,
            b0,
            built[kids[hi - 1].1 as int],
            kids[hi - 1].1 as int,
        ));
    } else {
        assert(kids.subrange(0, 0) =~= Seq::<(u16, usize)>::empty());
    }
}

/// The text and blanks of node `i`'s first `j` children laid out as a
/// separated sequence: comments are left to their anchors, a `|` separator is
/// led by a blank, every other child is laid out as its Doc from `built` in `b`.
pub open spec fn seq_layout(ctx: &Ctx, built: Seq<NodeId>, b: DocBuilder, i: int, j: int) -> Seq<Piece>
    decreases j,
{
    if j <= 0 {
        Seq::empty()
    } else {
        let c = child_of(ctx.cst.nodes@, i, j - 1);
        let n = ctx.cst.nodes@[c];
        seq_layout(ctx, built, b, i, j - 1) + if n.kind == ctx.kinds.line_comment || n.kind
            == ctx.kinds.block_comment {
            Seq::empty()
        } else if !n.named && n.kind == ctx.kinds.pipe {
            seq![Piece::Blank] + doc_layout(b, built[c] as int)
        } else {
            doc_layout(b, built[c] as int)
        }
    }
}

/// No comment is anchored before or after any child of node `i`.
pub open spec fn kids_uncommented(ctx: &Ctx, i: int) -> bool {
    forall|q: int|
        0 <= q < ctx.cst.nodes@[i].count ==> ctx.at.by_anchor@[#[trigger] child_of(ctx.cst.nodes@, i, q)].leading@.len()
            == 0 && ctx.at.by_anchor@[child_of(ctx.cst.nodes@, i, q)].trailing@.len() == 0
}

/// A pure separated sequence — a rule body, a disjunctive head, an element list,
/// a condition, an argument / tuple item list, a parameter list. Named children
/// are elements; anonymous `,` / `;` are depth-spaced separators; the
/// disjunction `|` is spaced on both sides. One author blank between exploded
/// elements is kept. A trailing separator (the 1-tuple `(a,)`) is glued as a tail.
/// Only layout is added: with no comment dangling from the node, its Doc's text
/// is its children's text in source order, comment children carried by the
/// anchors they are attached to.
pub fn lower_separated_sequence(
    ctx: &Ctx,
    i: usize,
    bracket_depth: usize,
    built: &Vec<NodeId>,
    b: &mut DocBuilder,
) -> (id: NodeId)
    requires
        env_ok(ctx, built@, *old(b)),
        i < ctx.cst.nodes@.len(),
    ensures
        lowered(ctx, built@, *old(b), *final(b), id),
        settled(*old(b), *final(b)),
        !final(b).full_spec() && ctx.at.by_anchor@[i as int].dangling@.len() == 0 ==> doc_text(*final(b), id as int)
            == kids_text(ctx, built@, *old(b), i as int, ctx.cst.nodes@[i as int].count as int),
        !final(b).full_spec() && ctx.at.by_anchor@[i as int].dangling@.len() == 0 && kids_uncommented(ctx, i as int)
            ==> doc_layout(*final(b), id as int) == seq_layout(
            ctx,
            built@,
            *old(b),
            i as int,
            ctx.cst.nodes@[i as int].count as int,
        ),
{
    let k = ctx.kinds;
    let kids = ctx.cst.walk_children(i);
    let mut parts: Vec<Part> = Vec::new();
    let mut blanks = ElementBlanks::new();
    let ghost b0 = *b;
    let mut j: usize = 0;
    assert(parts_text(*b, parts@, 0, 0) =~= Seq::<Span>::empty());
    assert(parts_layout(*b, parts@, 0, 0) =~= Seq::<Piece>::empty());
    proof {
        crate::cst::lemma_children_in_bounds(ctx.cst.nodes@, i as int);
    }
    while j < kids.len()
        invariant
            env_ok(ctx, built@, *b),
            env_ok(ctx, built@, b0),
            b0 == *old(b),
            k == ctx.kinds,
            grows(*old(b), *b),
            settled(b0, *b),
            i < ctx.cst.nodes@.len(),
            j <= kids@.len(),
            kids_ok(ctx, i, kids@),
            kids@.len() == ctx.cst.nodes@[i as int].count,
            ctx.cst.nodes@[i as int].first + ctx.cst.nodes@[i as int].count <= ctx.cst.nodes@.len(),
            forall|q: int|
                0 <= q < kids@.len() ==> #[trigger] kids@[q] == (
                    ctx.cst.nodes@[child_of(ctx.cst.nodes@, i as int, q)].field,
                    child_of(ctx.cst.nodes@, i as int, q) as usize,
                ),
            parts_ok(parts@, *b),
            no_openers(parts@),
            !b.full_spec() && kids_uncommented(ctx, i as int) ==> parts_layout(*b, parts@, 0, parts@.len() as int)
                == seq_layout(ctx, built@, b0, i as int, j as int),
            !b.full_spec() ==> parts_text(*b, parts@, 0, parts@.len() as int) == kids_text(
                ctx,
                built@,
                b0,
                i as int,
                j as int,
            ),
        decreases kids@.len() - j,
    {
        let c = kids[j].1;
        let child = ctx.cst.nodes[c];
        let ghost b1 = *b;
        let ghost p1 = parts@;
        assert(c == child_of(ctx.cst.nodes@, i as int, j as int));
        assert(built@[c as int] < b0.nodes_spec().len());
        assert(child_of(ctx.cst.nodes@, i as int, (j + 1) - 1) == c);
        proof {
            lemma_kids_text_step(ctx, built@, b0, i as int, j as int);
        }
        if is_comment(k, child) {
            blanks.note(child);
        } else if child.named {
            let d = element_doc(ctx, built, c, &mut blanks, b);
            let part = Part { role: Role::Element, doc: d };
            parts.push(part);
            proof {
                if !b.full_spec() {
                    lemma_parts_text_push(*b, p1, part);
                    lemma_parts_text_stable(b1, *b, p1, 0, p1.len() as int);
                    assert(doc_text(b1, built@[c as int] as int) == doc_text(b0, built@[c as int] as int));
                    lemma_parts_layout_push(*b, p1, part);
                    lemma_parts_layout_stable(b1, *b, p1, 0, p1.len() as int);
                    assert(doc_layout(b1, built@[c as int] as int) == doc_layout(b0, built@[c as int] as int));
                }
                assert(parts@ == p1.push(part));
                assert(no_openers(parts@)) by {
                    assert forall|q: int| 0 <= q < parts@.len() implies !((#[trigger] parts@[q]).role is Opener) by {
                        if q < p1.len() {
                            assert(parts@[q] == p1[q]);
                        }
                    }
                }
            }
        } else {
            blanks.note(child);
            let sep = child_doc(ctx, built, c, b);
            if child.kind == k.pipe {
                let ghost b2 = *b;
                let space = e_space(ctx, b);
                let ghost b3 = *b;
                let d = e_seq(ctx, b, &[space, sep]);
                let part = Part { role: Role::Separator(Sep::Spaced), doc: d };
                parts.push(part);
                proof {
                    if !b.full_spec() {
                        lemma_parts_text_push(*b, p1, part);
                        lemma_parts_text_stable(b1, *b, p1, 0, p1.len() as int);
                        lemma_items_text_2(b3, space, sep);
                        assert(doc_text(b3, sep as int) == doc_text(b2, sep as int));
                        assert(doc_text(b1, built@[c as int] as int) == doc_text(b0, built@[c as int] as int));
                        assert(Seq::<Span>::empty() + doc_text(b2, sep as int) =~= doc_text(b2, sep as int));
                        lemma_parts_layout_push(*b, p1, part);
                        lemma_parts_layout_stable(b1, *b, p1, 0, p1.len() as int);
                        lemma_items_layout_2(b3, space, sep);
                        assert(doc_layout(b3, sep as int) == doc_layout(b2, sep as int));
                        assert(doc_layout(b1, built@[c as int] as int) == doc_layout(b0, built@[c as int] as int));
                    }
                    assert(parts@ == p1.push(part));
                    assert(no_openers(parts@)) by {
                        assert forall|q: int| 0 <= q < parts@.len() implies !((#[trigger] parts@[q]).role is Opener) by {
                            if q < p1.len() {
                                assert(parts@[q] == p1[q]);
                            }
                        }
                    }
                }
            } else {
                let part = Part { role: Role::Separator(comma_spacing(bracket_depth)), doc: sep };
                parts.push(part);
                proof {
                    if !b.full_spec() {
                        lemma_parts_text_push(*b, p1, part);
                        lemma_parts_text_stable(b1, *b, p1, 0, p1.len() as int);
                        assert(doc_text(b1, built@[c as int] as int) == doc_text(b0, built@[c as int] as int));
                        lemma_parts_layout_push(*b, p1, part);
                        lemma_parts_layout_stable(b1, *b, p1, 0, p1.len() as int);
                        assert(doc_layout(b1, built@[c as int] as int) == doc_layout(b0, built@[c as int] as int));
                    }
                    assert(parts@ == p1.push(part));
                    assert(no_openers(parts@)) by {
                        assert forall|q: int| 0 <= q < parts@.len() implies !((#[trigger] parts@[q]).role is Opener) by {
                            if q < p1.len() {
                                assert(parts@[q] == p1[q]);
                            }
                        }
                    }
                }
            }
        }
        proof {
            if child.kind == k.line_comment || child.kind == k.block_comment {
                assert(kids_text(ctx, built@, b0, i as int, j as int) + Seq::<Span>::empty() =~= kids_text(
                    ctx,
                    built@,
                    b0,
                    i as int,
                    j as int,
                ));
                assert(seq_layout(ctx, built@, b0, i as int, j as int) + Seq::<Piece>::empty() =~= seq_layout(
                    ctx,
                    built@,
                    b0,
                    i as int,
                    j as int,
                ));
            }
        }
        j = j + 1;
    }
    let ghost p2 = parts@;
    let n = parts.len();
    if n > 0 {
        let last = parts[n - 1];
        match last.role {
            Role::Separator(_) => {
                parts.set(n - 1, Part { role: Role::Tail, doc: last.doc });
            },
            _ => {},
        }
    }
    proof {
        lemma_parts_text_docs(*b, parts@, p2, 0, parts@.len() as int);
        lemma_parts_layout_docs(*b, parts@, p2, 0, parts@.len() as int);
        assert(no_openers(parts@)) by {
            assert forall|q: int| 0 <= q < parts@.len() implies !((#[trigger] parts@[q]).role is Opener) by {
                if q != n - 1 {
                    assert(parts@[q] == p2[q]);
                }
            }
        }
    }
    finish_parts(ctx, i, &mut parts, false, built, b)
}

/// The role of one child of a bracketed aggregate (see [`aggregate_parts`]).
pub open spec fn aggregate_role(ctx: &Ctx, kid: (u16, usize)) -> Role {
    let id = kid_kind(ctx, kid);
    if kid.0 != 0 && kid.0 == ctx.fields.left {
        Role::Element
    } else if kid.0 != 0 && kid.0 == ctx.fields.right {
        Role::Tail
    } else if id == ctx.kinds.lbrace {
        Role::Opener(OpenerKind::Bracket(Pad::Spaced))
    } else if id == ctx.kinds.rbrace {
        Role::Closer
    } else if id == ctx.kinds.dot {
        Role::Tail
    } else {
        Role::Element
    }
}

/// The padding of a bracketed aggregate's child: a `left` bound is followed by a
/// blank, a `right` bound led by one.
pub open spec fn aggregate_padding(ctx: &Ctx, kid: (u16, usize)) -> Padding {
    if kid.0 != 0 && kid.0 == ctx.fields.left {
        Padding::After
    } else if kid.0 != 0 && kid.0 == ctx.fields.right {
        Padding::Before
    } else {
        Padding::Plain
    }
}

/// A bracketed aggregate's child as its part lays it out: a `left` bound
/// followed by a blank, a `right` bound led by one, any other child as its Doc
/// from `built` in `b`.
pub open spec fn aggregate_kid_layout(ctx: &Ctx, built: Seq<NodeId>, b: DocBuilder, kid: (u16, usize)) -> Seq<Piece> {
    let l = doc_layout(b, built[kid.1 as int] as int);
    if kid.0 != 0 && kid.0 == ctx.fields.left {
        l + seq![Piece::Blank]
    } else if kid.0 != 0 && kid.0 == ctx.fields.right {
        seq![Piece::Blank] + l
    } else {
        l
    }
}

/// The layouts of a bracketed aggregate's children `kids[0..m)` as its parts
/// lay them out.
pub open spec fn aggregate_layout(ctx: &Ctx, built: Seq<NodeId>, b: DocBuilder, kids: Seq<(u16, usize)>, m: int) -> Seq<Piece>
    decreases m,
{
    if m <= 0 {
        Seq::empty()
    } else {
        aggregate_layout(ctx, built, b, kids, m - 1) + aggregate_kid_layout(ctx, built, b, kids[m - 1])
    }
}

/// Parts laid out as a bracketed aggregate's children lay out those children.
pub proof fn lemma_parts_aggregate_layout(
    ctx: &Ctx,
    bp: DocBuilder,
    b0: DocBuilder,
    parts: Seq<Part>,
    built: Seq<NodeId>,
    kids: Seq<(u16, usize)>,
    m: int,
)
    requires
        0 <= m,
        forall|q: int| 0 <= q < m ==> doc_layout(bp, (#[trigger] parts[q]).doc as int) == aggregate_kid_layout(ctx, built, b0, kids[q]),
    ensures
        parts_layout(bp, parts, 0, m) == aggregate_layout(ctx, built, b0, kids, m),
    decreases m,
{
    if m > 0 {
        assert(doc_layout(bp, parts[m - 1].doc as int) == aggregate_kid_layout(ctx, built, b0, kids[m - 1]));
        lemma_parts_aggregate_layout(ctx, bp, b0, parts, built, kids, m - 1);
    }
}

/// Roles of a bracketed aggregate's children: `{` the spaced opener, `}` its
/// closer, a `left` bound spaced from the brace, a `right` bound riding the
/// closer, a statement `.` glued; all else name content or the element list.
pub fn aggregate_parts(ctx: &Ctx, i: usize, built: &Vec<NodeId>, b: &mut DocBuilder) -> (parts: Vec<Part>)
    requires
        env_ok(ctx, built@, *old(b)),
        i < ctx.cst.nodes@.len(),
    ensures
        env_ok(ctx, built@, *final(b)),
        grows(*old(b), *final(b)),
        settled(*old(b), *final(b)),
        parts_ok(parts@, *final(b)),
        roles_of(parts@) == code_kids(ctx.cst.nodes@, ctx.kinds, i as int, ctx.cst.nodes@[i as int].count as int).map_values(
            |kid: (u16, usize)| aggregate_role(ctx, kid),
        ),
        !final(b).full_spec() ==> forall|q: int|
            0 <= q < parts@.len() ==> {
                let kid = code_kids(ctx.cst.nodes@, ctx.kinds, i as int, ctx.cst.nodes@[i as int].count as int)[q];
                &&& doc_text(*final(b), (#[trigger] parts@[q]).doc as int) == child_text(
                    ctx,
                    *old(b),
                    built@[kid.1 as int],
                    kid.1 as int,
                )
                &&& padded(doc_layout(*final(b), parts@[q].doc as int), aggregate_padding(ctx, kid))
                &&& uncommented(ctx, kid.1 as int) ==> doc_layout(*final(b), parts@[q].doc as int) == aggregate_kid_layout(
                    ctx,
                    built@,
                    *old(b),
                    kid,
                )
            },
{
    let k = ctx.kinds;
    let f = ctx.fields;
    let kids = walk_code_children(ctx, i);
    let mut parts: Vec<Part> = Vec::new();
    let ghost b0 = *b;
    let mut j: usize = 0;
    while j < kids.len()
        invariant
            env_ok(ctx, built@, *b),
            env_ok(ctx, built@, b0),
            b0 == *old(b),
            grows(*old(b), *b),
            settled(*old(b), *b),
            i < ctx.cst.nodes@.len(),
            j <= kids@.len(),
            kids_ok(ctx, i, kids@),
            parts_ok(parts@, *b),
            k == ctx.kinds,
            f == ctx.fields,
            roles_of(parts@) =~= kids@.subrange(0, j as int).map_values(|kid: (u16, usize)| aggregate_role(ctx, kid)),
            !b.full_spec() ==> forall|q: int|
                0 <= q < parts@.len() ==> {
                    &&& doc_text(*b, (#[trigger] parts@[q]).doc as int) == child_text(
                        ctx,
                        b0,
                        built@[kids@[q].1 as int],
                        kids@[q].1 as int,
                    )
                    &&& padded(doc_layout(*b, parts@[q].doc as int), aggregate_padding(ctx, kids@[q]))
                    &&& uncommented(ctx, kids@[q].1 as int) ==> doc_layout(*b, parts@[q].doc as int)
                        == aggregate_kid_layout(ctx, built@, b0, kids@[q])
                },
        decreases kids@.len() - j,
    {
        let ghost p0 = parts@;
        let ghost bs = *b;
        let (field, c) = kids[j];
        let id = ctx.cst.nodes[c].kind;
        assert(built@[c as int] < b0.nodes_spec().len());
        let d = child_doc(ctx, built, c, b);
        let ghost b1 = *b;
        if field != 0 && field == f.left {
            let sp = e_space(ctx, b);
            let ghost b2 = *b;
            let d2 = e_seq(ctx, b, &[d, sp]);
            parts.push(Part { role: Role::Element, doc: d2 });
            proof {
                if !b.full_spec() {
                    lemma_items_text_2(b2, d, sp);
                    lemma_items_layout_2(b2, d, sp);
                    assert(doc_text(b2, d as int) == doc_text(b1, d as int));
                    assert(doc_text(b2, d as int) + Seq::<Span>::empty() =~= doc_text(b2, d as int));
                }
            }
        } else if field != 0 && field == f.right {
            let sp = e_space(ctx, b);
            let ghost b2 = *b;
            let d2 = e_seq(ctx, b, &[sp, d]);
            parts.push(Part { role: Role::Tail, doc: d2 });
            proof {
                if !b.full_spec() {
                    lemma_items_text_2(b2, sp, d);
                    lemma_items_layout_2(b2, sp, d);
                    assert(doc_text(b2, d as int) == doc_text(b1, d as int));
                    assert(Seq::<Span>::empty() + doc_text(b2, d as int) =~= doc_text(b2, d as int));
                }
            }
        } else if id == k.lbrace {
            parts.push(Part { role: Role::Opener(OpenerKind::Bracket(Pad::Spaced)), doc: d });
        } else if id == k.rbrace {
            parts.push(Part { role: Role::Closer, doc: d });
        } else if id == k.dot {
            parts.push(Part { role: Role::Tail, doc: d });
        } else {
            parts.push(Part { role: Role::Element, doc: d });
        }
        proof {
            assert(parts@.drop_last() == p0);
            assert(parts@.last().role == aggregate_role(ctx, kids@[j as int]));
            assert(kids@.subrange(0, j + 1) =~= kids@.subrange(0, j as int).push(kids@[j as int]));
            assert(roles_of(parts@) =~= roles_of(p0).push(parts@.last().role));
            if !b.full_spec() {
                assert(doc_text(bs, built@[c as int] as int) == doc_text(b0, built@[c as int] as int));
                assert(doc_layout(bs, built@[c as int] as int) == doc_layout(b0, built@[c as int] as int));
                assert(kids@[j as int] == (field, c));
                assert forall|q: int| 0 <= q < parts@.len() implies {
                    &&& doc_text(*b, (#[trigger] parts@[q]).doc as int) == child_text(
                        ctx,
                        b0,
                        built@[kids@[q].1 as int],
                        kids@[q].1 as int,
                    )
                    &&& padded(doc_layout(*b, parts@[q].doc as int), aggregate_padding(ctx, kids@[q]))
                    &&& uncommented(ctx, kids@[q].1 as int) ==> doc_layout(*b, parts@[q].doc as int)
                        == aggregate_kid_layout(ctx, built@, b0, kids@[q])
                } by {
                    if q < p0.len() {
                        assert(parts@[q] == p0[q]);
                        assert(doc_text(*b, p0[q].doc as int) == doc_text(bs, p0[q].doc as int));
                        assert(doc_layout(*b, p0[q].doc as int) == doc_layout(bs, p0[q].doc as int));
                    }
                }
            }
        }
        j = j + 1;
    }
    assert(kids@.subrange(0, kids@.len() as int) =~= kids@);
    parts
}

/// A bracketed aggregate: an optional bound, a `{`-block of `;`-elements, a
/// dedented `}`, an optional bound or statement `.` tail.
pub fn lower_aggregate(ctx: &Ctx, i: usize, built: &Vec<NodeId>, b: &mut DocBuilder) -> (id: NodeId)
    requires
        env_ok(ctx, built@, *old(b)),
        i < ctx.cst.nodes@.len(),
    ensures
        lowered(ctx, built@, *old(b), *final(b), id),
        settled(*old(b), *final(b)),
        !final(b).full_spec() && ctx.at.by_anchor@[i as int].dangling@.len() == 0 ==> doc_text(*final(b), id as int)
            == kids_text(ctx, built@, *old(b), i as int, ctx.cst.nodes@[i as int].count as int),
        ({
            let kids = code_kids(ctx.cst.nodes@, ctx.kinds, i as int, ctx.cst.nodes@[i as int].count as int);
            !final(b).full_spec() && ctx.at.by_anchor@[i as int].dangling@.len() == 0 && all_uncommented(ctx, kids)
                ==> doc_layout(*final(b), id as int) == aggregate_layout(ctx, built@, *old(b), kids, kids.len() as int)
        }),
{
    let ghost b0 = *b;
    let mut parts = aggregate_parts(ctx, i, built, b);
    let ghost b1 = *b;
    let ghost p1 = parts@;
    proof {
        let kids = code_kids(ctx.cst.nodes@, ctx.kinds, i as int, ctx.cst.nodes@[i as int].count as int);
        assert(roles_of(p1).len() == kids.len());
        assert(no_necks(p1)) by {
            assert forall|q: int| 0 <= q < p1.len() implies (#[trigger] p1[q]).role != Role::Opener(OpenerKind::Connective) by {
                assert(roles_of(p1)[q] == p1[q].role);
                assert(roles_of(p1)[q] == aggregate_role(ctx, kids[q]));
            }
        }
        if !b1.full_spec() && all_uncommented(ctx, kids) {
            assert forall|q: int| 0 <= q < p1.len() implies doc_layout(b1, (#[trigger] p1[q]).doc as int) == aggregate_kid_layout(
                ctx,
                built@,
                b0,
                kids[q],
            ) by {
                assert(uncommented(ctx, kids[q].1 as int));
            }
            lemma_parts_aggregate_layout(ctx, b1, b0, p1, built@, kids, p1.len() as int);
        }
    }
    let id = finish_parts(ctx, i, &mut parts, false, built, b);
    proof {
        if !b.full_spec() && ctx.at.by_anchor@[i as int].dangling@.len() == 0 {
            let kids = code_kids(ctx.cst.nodes@, ctx.kinds, i as int, ctx.cst.nodes@[i as int].count as int);
            assert(roles_of(p1).len() == kids.len());
            lemma_parts_code_text(ctx, built@, b0, b1, p1, kids, p1.len() as int);
            assert(kids.subrange(0, p1.len() as int) =~= kids);
            lemma_code_kids_text(ctx, built@, b0, i as int, ctx.cst.nodes@[i as int].count as int);
        }
    }
    id
}

/// An applicative bracketed construct — `[-]name(args)`, `@name(args)`, a tuple,
/// and the theory bracketed terms: the name abuts a tight opener `(` / `[` / `{`,
/// the argument segments ride between it and the closer, a pool `;` separates
/// them one bracket deeper.
pub fn lower_application(
    ctx: &Ctx,
    i: usize,
    bracket_depth: usize,
    built: &Vec<NodeId>,
    b: &mut DocBuilder,
) -> (id: NodeId)
    requires
        env_ok(ctx, built@, *old(b)),
        i < ctx.cst.nodes@.len(),
        bracket_depth < usize::MAX,
    ensures
        lowered(ctx, built@, *old(b), *final(b), id),
        settled(*old(b), *final(b)),
        !final(b).full_spec() && ctx.at.by_anchor@[i as int].dangling@.len() == 0 ==> doc_text(*final(b), id as int)
            == kids_text(ctx, built@, *old(b), i as int, ctx.cst.nodes@[i as int].count as int),
        ({
            let kids = code_kids(ctx.cst.nodes@, ctx.kinds, i as int, ctx.cst.nodes@[i as int].count as int);
            !final(b).full_spec() && ctx.at.by_anchor@[i as int].dangling@.len() == 0 && all_uncommented(ctx, kids)
                ==> doc_layout(*final(b), id as int) == kids_layout(built@, *old(b), kids, kids.len() as int)
        }),
{
    let k = ctx.kinds;
    let kids = walk_code_children(ctx, i);
    let mut parts: Vec<Part> = Vec::new();
    let ghost b0 = *b;
    let mut j: usize = 0;
    assert(parts_text(*b, parts@, 0, 0) =~= Seq::<Span>::empty());
    assert(parts_layout(*b, parts@, 0, 0) =~= Seq::<Piece>::empty());
    assert(kids@.subrange(0, 0) =~= Seq::<(u16, usize)>::empty());
    while j < kids.len()
        invariant
            env_ok(ctx, built@, b0),
            b0 == *old(b),
            settled(*old(b), *b),
            k == ctx.kinds,
            !b.full_spec() ==> parts_text(*b, parts@, 0, parts@.len() as int) == code_text(
                ctx,
                built@,
                b0,
                kids@.subrange(0, j as int),
            ),
            env_ok(ctx, built@, *b),
            grows(*old(b), *b),
            i < ctx.cst.nodes@.len(),
            bracket_depth < usize::MAX,
            j <= kids@.len(),
            kids_ok(ctx, i, kids@),
            parts_ok(parts@, *b),
            no_necks(parts@),
            !b.full_spec() && all_uncommented(ctx, kids@) ==> parts_layout(*b, parts@, 0, parts@.len() as int)
                == kids_layout(built@, b0, kids@, j as int),
        decreases kids@.len() - j,
    {
        let ghost bs = *b;
        let ghost p0 = parts@;
        let c = kids[j].1;
        assert(built@[c as int] < b0.nodes_spec().len());
        let id = ctx.cst.nodes[c].kind;
        let d = child_doc(ctx, built, c, b);
        let ghost bd = *b;
        let role = if id == k.lparen || id == k.lbracket || id == k.lbrace {
            Role::Opener(OpenerKind::Bracket(Pad::Tight))
        } else if id == k.rparen || id == k.rbracket || id == k.rbrace {
            Role::Closer
        } else if id == k.semicolon {
            Role::Separator(comma_spacing(bracket_depth + 1))
        } else {
            Role::Element
        };
        parts.push(Part { role, doc: d });
        proof {
            if !b.full_spec() {
                let part = parts@.last();
                assert(parts@ == p0.push(part));
                lemma_parts_text_push(*b, p0, part);
                lemma_parts_text_stable(bs, *b, p0, 0, p0.len() as int);
                assert(doc_text(bs, built@[c as int] as int) == doc_text(b0, built@[c as int] as int));
                let s1 = kids@.subrange(0, j + 1);
                assert(s1.drop_last() =~= kids@.subrange(0, j as int));
                assert(s1.last() == kids@[j as int]);
                lemma_parts_layout_push(*b, p0, part);
                lemma_parts_layout_stable(bs, *b, p0, 0, p0.len() as int);
                assert(doc_layout(bs, built@[c as int] as int) == doc_layout(b0, built@[c as int] as int));
                if all_uncommented(ctx, kids@) {
                    assert(uncommented(ctx, kids@[j as int].1 as int));
                }
            }
            assert(no_necks(parts@)) by {
                let part = parts@.last();
                assert(parts@ == p0.push(part));
                assert forall|q: int| 0 <= q < parts@.len() implies (#[trigger] parts@[q]).role != Role::Opener(OpenerKind::Connective) by {
                    if q < p0.len() {
                        assert(parts@[q] == p0[q]);
                    }
                }
            }
        }
        j = j + 1;
    }
    proof {
        assert(kids@.subrange(0, j as int) =~= kids@);
    }
    let id = finish_parts(ctx, i, &mut parts, false, built, b);
    proof {
        if !b.full_spec() && ctx.at.by_anchor@[i as int].dangling@.len() == 0 {
            lemma_code_kids_text(ctx, built@, b0, i as int, ctx.cst.nodes@[i as int].count as int);
        }
    }
    id
}

/// An absolute-value term `|t|` / pool `|t; …|`: the first `|` a tight opener,
/// the last its closer, a pool `;` one bracket deeper.
pub fn lower_abs(ctx: &Ctx, i: usize, bracket_depth: usize, built: &Vec<NodeId>, b: &mut DocBuilder) -> (id: NodeId)
    requires
        env_ok(ctx, built@, *old(b)),
        i < ctx.cst.nodes@.len(),
        bracket_depth < usize::MAX,
    ensures
        lowered(ctx, built@, *old(b), *final(b), id),
        settled(*old(b), *final(b)),
        !final(b).full_spec() && ctx.at.by_anchor@[i as int].dangling@.len() == 0 ==> doc_text(*final(b), id as int)
            == kids_text(ctx, built@, *old(b), i as int, ctx.cst.nodes@[i as int].count as int),
        ({
            let kids = code_kids(ctx.cst.nodes@, ctx.kinds, i as int, ctx.cst.nodes@[i as int].count as int);
            !final(b).full_spec() && ctx.at.by_anchor@[i as int].dangling@.len() == 0 && all_uncommented(ctx, kids)
                ==> doc_layout(*final(b), id as int) == kids_layout(built@, *old(b), kids, kids.len() as int)
        }),
{
    let k = ctx.kinds;
    let kids = walk_code_children(ctx, i);
    let mut parts: Vec<Part> = Vec::new();
    let mut opener_seen = false;
    let ghost b0 = *b;
    let mut j: usize = 0;
    assert(parts_text(*b, parts@, 0, 0) =~= Seq::<Span>::empty());
    assert(parts_layout(*b, parts@, 0, 0) =~= Seq::<Piece>::empty());
    assert(kids@.subrange(0, 0) =~= Seq::<(u16, usize)>::empty());
    while j < kids.len()
        invariant
            env_ok(ctx, built@, b0),
            b0 == *old(b),
            settled(*old(b), *b),
            k == ctx.kinds,
            !b.full_spec() ==> parts_text(*b, parts@, 0, parts@.len() as int) == code_text(
                ctx,
                built@,
                b0,
                kids@.subrange(0, j as int),
            ),
            env_ok(ctx, built@, *b),
            grows(*old(b), *b),
            i < ctx.cst.nodes@.len(),
            bracket_depth < usize::MAX,
            j <= kids@.len(),
            kids_ok(ctx, i, kids@),
            parts_ok(parts@, *b),
            no_necks(parts@),
            !b.full_spec() && all_uncommented(ctx, kids@) ==> parts_layout(*b, parts@, 0, parts@.len() as int)
                == kids_layout(built@, b0, kids@, j as int),
        decreases kids@.len() - j,
    {
        let ghost bs = *b;
        let ghost p0 = parts@;
        let c = kids[j].1;
        assert(built@[c as int] < b0.nodes_spec().len());
        let id = ctx.cst.nodes[c].kind;
        let d = child_doc(ctx, built, c, b);
        let ghost bd = *b;
        let role = if id == k.pipe {
            if opener_seen {
                Role::Closer
            } else {
                opener_seen = true;
                Role::Opener(OpenerKind::Bracket(Pad::Tight))
            }
        } else if id == k.semicolon {
            Role::Separator(comma_spacing(bracket_depth + 1))
        } else {
            Role::Element
        };
        parts.push(Part { role, doc: d });
        proof {
            if !b.full_spec() {
                let part = parts@.last();
                assert(parts@ == p0.push(part));
                lemma_parts_text_push(*b, p0, part);
                lemma_parts_text_stable(bs, *b, p0, 0, p0.len() as int);
                assert(doc_text(bs, built@[c as int] as int) == doc_text(b0, built@[c as int] as int));
                let s1 = kids@.subrange(0, j + 1);
                assert(s1.drop_last() =~= kids@.subrange(0, j as int));
                assert(s1.last() == kids@[j as int]);
                lemma_parts_layout_push(*b, p0, part);
                lemma_parts_layout_stable(bs, *b, p0, 0, p0.len() as int);
                assert(doc_layout(bs, built@[c as int] as int) == doc_layout(b0, built@[c as int] as int));
                if all_uncommented(ctx, kids@) {
                    assert(uncommented(ctx, kids@[j as int].1 as int));
                }
            }
            assert(no_necks(parts@)) by {
                let part = parts@.last();
                assert(parts@ == p0.push(part));
                assert forall|q: int| 0 <= q < parts@.len() implies (#[trigger] parts@[q]).role != Role::Opener(OpenerKind::Connective) by {
                    if q < p0.len() {
                        assert(parts@[q] == p0[q]);
                    }
                }
            }
        }
        j = j + 1;
    }
    proof {
        assert(kids@.subrange(0, j as int) =~= kids@);
    }
    let id = finish_parts(ctx, i, &mut parts, false, built, b);
    proof {
        if !b.full_spec() && ctx.at.by_anchor@[i as int].dangling@.len() == 0 {
            lemma_code_kids_text(ctx, built@, b0, i as int, ctx.cst.nodes@[i as int].count as int);
        }
    }
    id
}

/// Whether a `{` comes among the children `kids[0..q)`.
pub open spec fn brace_seen(ctx: &Ctx, kids: Seq<(u16, usize)>, q: int) -> bool
    decreases q,
{
    if q <= 0 {
        false
    } else {
        kid_kind(ctx, kids[q - 1]) == ctx.kinds.lbrace || brace_seen(ctx, kids, q - 1)
    }
}

/// A named block's child `kids[q]` as its part lays it out: a name child before
/// the `{` followed by a blank, any other as its Doc from `built` in `b`.
pub open spec fn named_block_kid_layout(ctx: &Ctx, built: Seq<NodeId>, b: DocBuilder, kids: Seq<(u16, usize)>, q: int) -> Seq<Piece> {
    let l = doc_layout(b, built[kids[q].1 as int] as int);
    let id = kid_kind(ctx, kids[q]);
    if id == ctx.kinds.lbrace || id == ctx.kinds.rbrace || id == ctx.kinds.dot || id == ctx.kinds.semicolon
        || brace_seen(ctx, kids, q) {
        l
    } else {
        l + seq![Piece::Blank]
    }
}

/// The layouts of a named block's children `kids[0..m)` as its parts lay them out.
pub open spec fn named_block_layout(ctx: &Ctx, built: Seq<NodeId>, b: DocBuilder, kids: Seq<(u16, usize)>, m: int) -> Seq<Piece>
    decreases m,
{
    if m <= 0 {
        Seq::empty()
    } else {
        named_block_layout(ctx, built, b, kids, m - 1) + named_block_kid_layout(ctx, built, b, kids, m - 1)
    }
}

/// A block with a name before a spaced `{`: the `#theory name { defs } .`
/// directive and a theory term definition `name { op_defs }`. Name parts are
/// spaced from what follows; the body rides between the braces, a `;` spaced;
/// the directive's `.` glues to the closer.
pub fn lower_named_block(ctx: &Ctx, i: usize, built: &Vec<NodeId>, b: &mut DocBuilder) -> (id: NodeId)
    requires
        env_ok(ctx, built@, *old(b)),
        i < ctx.cst.nodes@.len(),
    ensures
        lowered(ctx, built@, *old(b), *final(b), id),
        settled(*old(b), *final(b)),
        !final(b).full_spec() && ctx.at.by_anchor@[i as int].dangling@.len() == 0 ==> doc_text(*final(b), id as int)
            == kids_text(ctx, built@, *old(b), i as int, ctx.cst.nodes@[i as int].count as int),
        ({
            let kids = code_kids(ctx.cst.nodes@, ctx.kinds, i as int, ctx.cst.nodes@[i as int].count as int);
            !final(b).full_spec() && ctx.at.by_anchor@[i as int].dangling@.len() == 0 && all_uncommented(ctx, kids)
                ==> doc_layout(*final(b), id as int) == named_block_layout(ctx, built@, *old(b), kids, kids.len() as int)
        }),
{
    let k = ctx.kinds;
    let kids = walk_code_children(ctx, i);
    let mut parts: Vec<Part> = Vec::new();
    let mut seen_opener = false;
    let ghost b0 = *b;
    let mut j: usize = 0;
    assert(parts_text(*b, parts@, 0, 0) =~= Seq::<Span>::empty());
    assert(kids@.subrange(0, 0) =~= Seq::<(u16, usize)>::empty());
    assert(parts_layout(*b, parts@, 0, 0) =~= Seq::<Piece>::empty());
    while j < kids.len()
        invariant
            env_ok(ctx, built@, b0),
            b0 == *old(b),
            settled(*old(b), *b),
            k == ctx.kinds,
            !b.full_spec() ==> parts_text(*b, parts@, 0, parts@.len() as int) == code_text(
                ctx,
                built@,
                b0,
                kids@.subrange(0, j as int),
            ),
            env_ok(ctx, built@, *b),
            grows(*old(b), *b),
            i < ctx.cst.nodes@.len(),
            j <= kids@.len(),
            kids_ok(ctx, i, kids@),
            parts_ok(parts@, *b),
            no_necks(parts@),
            seen_opener == brace_seen(ctx, kids@, j as int),
            !b.full_spec() && all_uncommented(ctx, kids@) ==> parts_layout(*b, parts@, 0, parts@.len() as int)
                == named_block_layout(ctx, built@, b0, kids@, j as int),
        decreases kids@.len() - j,
    {
        let ghost bs = *b;
        let ghost p0 = parts@;
        let c = kids[j].1;
        assert(built@[c as int] < b0.nodes_spec().len());
        let id = ctx.cst.nodes[c].kind;
        let d = child_doc(ctx, built, c, b);
        let ghost bd = *b;
        if id == k.lbrace {
            seen_opener = true;
            parts.push(Part { role: Role::Opener(OpenerKind::Bracket(Pad::Spaced)), doc: d });
        } else if id == k.rbrace {
            parts.push(Part { role: Role::Closer, doc: d });
        } else if id == k.dot {
            parts.push(Part { role: Role::Tail, doc: d });
        } else if id == k.semicolon {
            parts.push(Part { role: Role::Separator(Sep::Spaced), doc: d });
        } else if seen_opener {
            parts.push(Part { role: Role::Element, doc: d });
        } else {
            let sp = e_space(ctx, b);
            let ghost b1 = *b;
            let d2 = e_seq(ctx, b, &[d, sp]);
            parts.push(Part { role: Role::Element, doc: d2 });
            proof {
                if !b.full_spec() {
                    lemma_items_text_2(b1, d, sp);
                    assert(doc_text(b1, d as int) == doc_text(bd, d as int));
                    lemma_items_layout_2(b1, d, sp);
                    assert(doc_layout(b1, d as int) == doc_layout(bd, d as int));
                    assert(doc_text(b1, d as int) + Seq::<Span>::empty() =~= doc_text(b1, d as int));
                }
            }
        }
        proof {
            if !b.full_spec() {
                let part = parts@.last();
                assert(parts@ == p0.push(part));
                lemma_parts_text_push(*b, p0, part);
                lemma_parts_text_stable(bs, *b, p0, 0, p0.len() as int);
                assert(doc_text(bs, built@[c as int] as int) == doc_text(b0, built@[c as int] as int));
                let s1 = kids@.subrange(0, j + 1);
                assert(s1.drop_last() =~= kids@.subrange(0, j as int));
                assert(s1.last() == kids@[j as int]);
                lemma_parts_layout_push(*b, p0, part);
                lemma_parts_layout_stable(bs, *b, p0, 0, p0.len() as int);
                assert(doc_layout(bs, built@[c as int] as int) == doc_layout(b0, built@[c as int] as int));
                if all_uncommented(ctx, kids@) {
                    assert(uncommented(ctx, kids@[j as int].1 as int));
                    assert(kids@[j as int].1 == c);
                }
            }
            assert(no_necks(parts@)) by {
                let part = parts@.last();
                assert(parts@ == p0.push(part));
                assert forall|q: int| 0 <= q < parts@.len() implies (#[trigger] parts@[q]).role != Role::Opener(OpenerKind::Connective) by {
                    if q < p0.len() {
                        assert(parts@[q] == p0[q]);
                    }
                }
            }
        }
        j = j + 1;
    }
    proof {
        assert(kids@.subrange(0, j as int) =~= kids@);
    }
    let id = finish_parts(ctx, i, &mut parts, false, built, b);
    proof {
        if !b.full_spec() && ctx.at.by_anchor@[i as int].dangling@.len() == 0 {
            lemma_code_kids_text(ctx, built@, b0, i as int, ctx.cst.nodes@[i as int].count as int);
        }
    }
    id
}

/// The `#theory name { defs } .` definition directive.
pub fn lower_theory_directive(ctx: &Ctx, i: usize, built: &Vec<NodeId>, b: &mut DocBuilder) -> (id: NodeId)
    requires
        env_ok(ctx, built@, *old(b)),
        i < ctx.cst.nodes@.len(),
    ensures
        lowered(ctx, built@, *old(b), *final(b), id),
        settled(*old(b), *final(b)),
        !final(b).full_spec() && ctx.at.by_anchor@[i as int].dangling@.len() == 0 ==> doc_text(*final(b), id as int)
            == kids_text(ctx, built@, *old(b), i as int, ctx.cst.nodes@[i as int].count as int),
        ({
            let kids = code_kids(ctx.cst.nodes@, ctx.kinds, i as int, ctx.cst.nodes@[i as int].count as int);
            !final(b).full_spec() && ctx.at.by_anchor@[i as int].dangling@.len() == 0 && all_uncommented(ctx, kids)
                ==> doc_layout(*final(b), id as int) == named_block_layout(ctx, built@, *old(b), kids, kids.len() as int)
        }),
{
    lower_named_block(ctx, i, built, b)
}

/// A theory term definition `name { operator_definitions }`.
pub fn lower_theory_term_definition(ctx: &Ctx, i: usize, built: &Vec<NodeId>, b: &mut DocBuilder) -> (id: NodeId)
    requires
        env_ok(ctx, built@, *old(b)),
        i < ctx.cst.nodes@.len(),
    ensures
        lowered(ctx, built@, *old(b), *final(b), id),
        settled(*old(b), *final(b)),
        !final(b).full_spec() && ctx.at.by_anchor@[i as int].dangling@.len() == 0 ==> doc_text(*final(b), id as int)
            == kids_text(ctx, built@, *old(b), i as int, ctx.cst.nodes@[i as int].count as int),
        ({
            let kids = code_kids(ctx.cst.nodes@, ctx.kinds, i as int, ctx.cst.nodes@[i as int].count as int);
            !final(b).full_spec() && ctx.at.by_anchor@[i as int].dangling@.len() == 0 && all_uncommented(ctx, kids)
                ==> doc_layout(*final(b), id as int) == named_block_layout(ctx, built@, *old(b), kids, kids.len() as int)
        }),
{
    lower_named_block(ctx, i, built, b)
}

/// The index of the first `:` among `kids[j..]`, or the length.
pub open spec fn colon_at(ctx: &Ctx, kids: Seq<(u16, usize)>, j: int) -> int
    decreases kids.len() - j,
{
    if j < 0 || j >= kids.len() {
        kids.len() as int
    } else if kid_kind(ctx, kids[j]) == ctx.kinds.colon {
        j
    } else {
        colon_at(ctx, kids, j + 1)
    }
}

/// [`colon_at`] finds the first `:` from `j` on.
pub proof fn lemma_colon_at(ctx: &Ctx, kids: Seq<(u16, usize)>, j: int)
    requires
        0 <= j <= kids.len(),
    ensures
        j <= colon_at(ctx, kids, j) <= kids.len(),
        forall|q: int| j <= q < colon_at(ctx, kids, j) ==> kid_kind(ctx, #[trigger] kids[q]) != ctx.kinds.colon,
        colon_at(ctx, kids, j) < kids.len() ==> kid_kind(ctx, kids[colon_at(ctx, kids, j)]) == ctx.kinds.colon,
    decreases kids.len() - j,
{
    if j < kids.len() && kid_kind(ctx, kids[j]) != ctx.kinds.colon {
        lemma_colon_at(ctx, kids, j + 1);
    }
}

/// A conditional literal with a plain head: at least one child comes before
/// its first `:`, and no comment is anchored to those children or to the `:`.
pub open spec fn plain_condition(ctx: &Ctx, kids: Seq<(u16, usize)>) -> bool {
    let m = colon_at(ctx, kids, 0);
    &&& 0 < m < kids.len()
    &&& forall|q: int| 0 <= q <= m ==> uncommented(ctx, (#[trigger] kids[q]).1 as int)
}

/// The conditional-literal `… : condition` family: the first `:` is the
/// connective neck (the condition hangs); a later `:` is a spaced separator;
/// `,` / `;` are depth-spaced separators; all else is an element.
pub fn lower_conditional(
    ctx: &Ctx,
    i: usize,
    bracket_depth: usize,
    built: &Vec<NodeId>,
    b: &mut DocBuilder,
) -> (id: NodeId)
    requires
        env_ok(ctx, built@, *old(b)),
        i < ctx.cst.nodes@.len(),
    ensures
        lowered(ctx, built@, *old(b), *final(b), id),
        settled(*old(b), *final(b)),
        !final(b).full_spec() && ctx.at.by_anchor@[i as int].dangling@.len() == 0 ==> doc_text(*final(b), id as int)
            == kids_text(ctx, built@, *old(b), i as int, ctx.cst.nodes@[i as int].count as int),
        ({
            let kids = code_kids(ctx.cst.nodes@, ctx.kinds, i as int, ctx.cst.nodes@[i as int].count as int);
            let m = colon_at(ctx, kids, 0);
            !final(b).full_spec() && ctx.at.by_anchor@[i as int].dangling@.len() == 0 && plain_condition(ctx, kids)
                ==> lays_first(
                doc_layout(*final(b), id as int),
                kids_layout(built@, *old(b), kids, m) + seq![Piece::Blank] + doc_layout(
                    *old(b),
                    built@[kids[m].1 as int] as int,
                ),
            )
        }),
{
    let k = ctx.kinds;
    let kids = walk_code_children(ctx, i);
    let mut parts: Vec<Part> = Vec::new();
    let mut seen_colon = false;
    let ghost b0 = *b;
    let mut j: usize = 0;
    proof {
        lemma_colon_at(ctx, kids@, 0);
    }
    assert(parts_text(*b, parts@, 0, 0) =~= Seq::<Span>::empty());
    assert(kids@.subrange(0, 0) =~= Seq::<(u16, usize)>::empty());
    while j < kids.len()
        invariant
            env_ok(ctx, built@, b0),
            b0 == *old(b),
            settled(*old(b), *b),
            k == ctx.kinds,
            !b.full_spec() ==> parts_text(*b, parts@, 0, parts@.len() as int) == code_text(
                ctx,
                built@,
                b0,
                kids@.subrange(0, j as int),
            ),
            env_ok(ctx, built@, *b),
            grows(*old(b), *b),
            i < ctx.cst.nodes@.len(),
            j <= kids@.len(),
            kids_ok(ctx, i, kids@),
            parts_ok(parts@, *b),
            parts@.len() == j,
            0 <= colon_at(ctx, kids@, 0) <= kids@.len(),
            forall|q: int| 0 <= q < colon_at(ctx, kids@, 0) ==> kid_kind(ctx, #[trigger] kids@[q]) != ctx.kinds.colon,
            colon_at(ctx, kids@, 0) < kids@.len() ==> kid_kind(ctx, kids@[colon_at(ctx, kids@, 0)]) == ctx.kinds.colon,
            seen_colon <==> colon_at(ctx, kids@, 0) < j,
            forall|q: int| 0 <= q < j && q < colon_at(ctx, kids@, 0) ==> (#[trigger] parts@[q]).role != Role::Opener(OpenerKind::Connective),
            colon_at(ctx, kids@, 0) < j ==> parts@[colon_at(ctx, kids@, 0)].role == Role::Opener(OpenerKind::Connective),
            !b.full_spec() ==> forall|q: int|
                0 <= q < j && q <= colon_at(ctx, kids@, 0) && uncommented(ctx, kids@[q].1 as int) ==> doc_layout(
                    *b,
                    (#[trigger] parts@[q]).doc as int,
                ) == doc_layout(b0, built@[kids@[q].1 as int] as int),
        decreases kids@.len() - j,
    {
        let ghost bs = *b;
        let ghost p0 = parts@;
        let c = kids[j].1;
        assert(built@[c as int] < b0.nodes_spec().len());
        let id = ctx.cst.nodes[c].kind;
        let d = child_doc(ctx, built, c, b);
        let ghost bd = *b;
        if id == k.colon {
            if seen_colon {
                let sp = e_space(ctx, b);
                let ghost b1 = *b;
                let d2 = e_seq(ctx, b, &[sp, d]);
                parts.push(Part { role: Role::Separator(Sep::Spaced), doc: d2 });
                proof {
                    if !b.full_spec() {
                        lemma_items_text_2(b1, sp, d);
                        assert(doc_text(b1, d as int) == doc_text(bd, d as int));
                        assert(Seq::<Span>::empty() + doc_text(b1, d as int) =~= doc_text(b1, d as int));
                    }
                }
            } else {
                seen_colon = true;
                parts.push(Part { role: Role::Opener(OpenerKind::Connective), doc: d });
            }
        } else if id == k.comma || id == k.semicolon {
            parts.push(Part { role: Role::Separator(comma_spacing(bracket_depth)), doc: d });
        } else {
            parts.push(Part { role: Role::Element, doc: d });
        }
        proof {
            if !b.full_spec() {
                let part = parts@.last();
                assert(parts@ == p0.push(part));
                lemma_parts_text_push(*b, p0, part);
                lemma_parts_text_stable(bs, *b, p0, 0, p0.len() as int);
                assert(doc_text(bs, built@[c as int] as int) == doc_text(b0, built@[c as int] as int));
                let s1 = kids@.subrange(0, j + 1);
                assert(s1.drop_last() =~= kids@.subrange(0, j as int));
                assert(s1.last() == kids@[j as int]);
            }
            let m = colon_at(ctx, kids@, 0);
            assert(kids@[j as int].1 == c);
            let part = parts@.last();
            assert(parts@ == p0.push(part));
            assert forall|q: int| 0 <= q < j + 1 && q < m implies (#[trigger] parts@[q]).role != Role::Opener(OpenerKind::Connective) by {
                if q < j {
                    assert(parts@[q] == p0[q]);
                }
            }
            if !b.full_spec() {
                assert(doc_layout(bs, built@[c as int] as int) == doc_layout(b0, built@[c as int] as int));
                assert forall|q: int|
                    0 <= q < j + 1 && q <= m && uncommented(ctx, kids@[q].1 as int) implies doc_layout(
                    *b,
                    (#[trigger] parts@[q]).doc as int,
                ) == doc_layout(b0, built@[kids@[q].1 as int] as int) by {
                    if q < j {
                        assert(parts@[q] == p0[q]);
                        assert(doc_layout(*b, p0[q].doc as int) == doc_layout(bs, p0[q].doc as int));
                    }
                }
            }
        }
        j = j + 1;
    }
    proof {
        assert(kids@.subrange(0, j as int) =~= kids@);
    }
    let ghost bp = *b;
    let ghost pp = parts@;
    let np = parts.len();
    proof {
        let kids_s = kids@;
        let m = colon_at(ctx, kids_s, 0);
        assert(pp.len() == np);
        if plain_condition(ctx, kids_s) {
            assert forall|q: int| 0 <= q < m implies !is_which((#[trigger] pp[q]).role, Which::Connective) by {
                assert(pp[q].role != Role::Opener(OpenerKind::Connective));
            }
            lemma_first_at_hit(pp, 0, m, Which::Connective);
            assert(classify_spec(pp) is TrailingNeck);
            assert(classify_spec(pp)->TrailingNeck_neck == m);
            if !bp.full_spec() {
                assert forall|q: int| 0 <= q < m implies doc_layout(bp, (#[trigger] pp[q]).doc as int) == doc_layout(
                    b0,
                    built@[kids_s[q].1 as int] as int,
                ) by {
                    assert(uncommented(ctx, kids_s[q].1 as int));
                }
                lemma_parts_kids_layout(bp, b0, pp, built@, kids_s, m);
                assert(uncommented(ctx, kids_s[m].1 as int));
            }
        }
    }
    let id = finish_parts(ctx, i, &mut parts, false, built, b);
    proof {
        if !b.full_spec() && ctx.at.by_anchor@[i as int].dangling@.len() == 0 {
            lemma_code_kids_text(ctx, built@, b0, i as int, ctx.cst.nodes@[i as int].count as int);
        }
    }
    id
}

/// The layouts of a keyword block's children `kids[0..m)` as its parts lay
/// them out: the keyword followed by a blank, every other child as its Doc from
/// `built` in `b`.
pub open spec fn keyword_block_layout(built: Seq<NodeId>, b: DocBuilder, kids: Seq<(u16, usize)>, m: int) -> Seq<Piece>
    decreases m,
{
    if m <= 0 {
        Seq::empty()
    } else {
        keyword_block_layout(built, b, kids, m - 1) + doc_layout(b, built[kids[m - 1].1 as int] as int) + (if m == 1 {
            seq![Piece::Blank]
        } else {
            Seq::empty()
        })
    }
}

/// An `#edge` directive without a `: body` past its keyword.
pub open spec fn bodiless_edge(ctx: &Ctx, kids: Seq<(u16, usize)>) -> bool {
    forall|q: int| 0 < q < kids.len() ==> kid_kind(ctx, #[trigger] kids[q]) != ctx.kinds.colon
}

/// The layouts of an `#edge` directive's children `kids[0..m)` as its parts
/// lay them out: the keyword and each pair-separating `;` followed by a blank,
/// every other child as its Doc from `built` in `b`.
pub open spec fn edge_layout(ctx: &Ctx, built: Seq<NodeId>, b: DocBuilder, kids: Seq<(u16, usize)>, m: int) -> Seq<Piece>
    decreases m,
{
    if m <= 0 {
        Seq::empty()
    } else {
        let id = kid_kind(ctx, kids[m - 1]);
        edge_layout(ctx, built, b, kids, m - 1) + doc_layout(b, built[kids[m - 1].1 as int] as int) + (if m == 1 || (
        id != ctx.kinds.lparen && id != ctx.kinds.rparen && id == ctx.kinds.semicolon) {
            seq![Piece::Blank]
        } else {
            Seq::empty()
        })
    }
}

/// A keyword-led bracketed directive: `#program name (params) .` and
/// `#edge ( pairs ) (: body)? .`. The keyword is spaced from what follows; `(`
/// is a tight opener and `)` its closer; the `.` glues. With `edge`, a pool `;`
/// is a non-breaking `; ` element and a `:` is a connective neck.
pub fn lower_keyword_bracket(
    ctx: &Ctx,
    i: usize,
    edge: bool,
    built: &Vec<NodeId>,
    b: &mut DocBuilder,
) -> (id: NodeId)
    requires
        env_ok(ctx, built@, *old(b)),
        i < ctx.cst.nodes@.len(),
    ensures
        lowered(ctx, built@, *old(b), *final(b), id),
        settled(*old(b), *final(b)),
        !final(b).full_spec() && ctx.at.by_anchor@[i as int].dangling@.len() == 0 ==> doc_text(*final(b), id as int)
            == kids_text(ctx, built@, *old(b), i as int, ctx.cst.nodes@[i as int].count as int),
        ({
            let kids = code_kids(ctx.cst.nodes@, ctx.kinds, i as int, ctx.cst.nodes@[i as int].count as int);
            !edge && !final(b).full_spec() && ctx.at.by_anchor@[i as int].dangling@.len() == 0 && all_uncommented(
                ctx,
                kids,
            ) ==> doc_layout(*final(b), id as int) == keyword_block_layout(built@, *old(b), kids, kids.len() as int)
        }),
        ({
            let kids = code_kids(ctx.cst.nodes@, ctx.kinds, i as int, ctx.cst.nodes@[i as int].count as int);
            edge && !final(b).full_spec() && ctx.at.by_anchor@[i as int].dangling@.len() == 0 && bodiless_edge(ctx, kids)
                && all_uncommented(ctx, kids) ==> doc_layout(*final(b), id as int) == edge_layout(
                ctx,
                built@,
                *old(b),
                kids,
                kids.len() as int,
            )
        }),
{
    let k = ctx.kinds;
    let kids = walk_code_children(ctx, i);
    let mut parts: Vec<Part> = Vec::new();
    let ghost b0 = *b;
    let mut j: usize = 0;
    assert(parts_text(*b, parts@, 0, 0) =~= Seq::<Span>::empty());
    assert(kids@.subrange(0, 0) =~= Seq::<(u16, usize)>::empty());
    assert(parts_layout(*b, parts@, 0, 0) =~= Seq::<Piece>::empty());
    while j < kids.len()
        invariant
            env_ok(ctx, built@, b0),
            b0 == *old(b),
            settled(*old(b), *b),
            k == ctx.kinds,
            !b.full_spec() ==> parts_text(*b, parts@, 0, parts@.len() as int) == code_text(
                ctx,
                built@,
                b0,
                kids@.subrange(0, j as int),
            ),
            env_ok(ctx, built@, *b),
            grows(*old(b), *b),
            i < ctx.cst.nodes@.len(),
            j <= kids@.len(),
            kids_ok(ctx, i, kids@),
            parts_ok(parts@, *b),
            !edge || bodiless_edge(ctx, kids@) ==> no_necks(parts@),
            edge && !b.full_spec() && all_uncommented(ctx, kids@) ==> parts_layout(*b, parts@, 0, parts@.len() as int)
                == edge_layout(ctx, built@, b0, kids@, j as int),
            !edge && !b.full_spec() && all_uncommented(ctx, kids@) ==> parts_layout(*b, parts@, 0, parts@.len() as int)
                == keyword_block_layout(built@, b0, kids@, j as int),
        decreases kids@.len() - j,
    {
        let ghost bs = *b;
        let ghost p0 = parts@;
        let c = kids[j].1;
        assert(built@[c as int] < b0.nodes_spec().len());
        let id = ctx.cst.nodes[c].kind;
        let d = child_doc(ctx, built, c, b);
        let ghost bd = *b;
        if j == 0 {
            let sp = e_space(ctx, b);
            let ghost b1 = *b;
            let d2 = e_seq(ctx, b, &[d, sp]);
            parts.push(Part { role: Role::Element, doc: d2 });
            proof {
                if !b.full_spec() {
                    lemma_items_text_2(b1, d, sp);
                    assert(doc_text(b1, d as int) == doc_text(bd, d as int));
                    lemma_items_layout_2(b1, d, sp);
                    assert(doc_layout(b1, d as int) == doc_layout(bd, d as int));
                    assert(doc_text(b1, d as int) + Seq::<Span>::empty() =~= doc_text(b1, d as int));
                }
            }
        } else if id == k.lparen {
            parts.push(Part { role: Role::Opener(OpenerKind::Bracket(Pad::Tight)), doc: d });
        } else if id == k.rparen {
            parts.push(Part { role: Role::Closer, doc: d });
        } else if edge && id == k.semicolon {
            let sp = e_space(ctx, b);
            let ghost b1 = *b;
            let d2 = e_seq(ctx, b, &[d, sp]);
            parts.push(Part { role: Role::Element, doc: d2 });
            proof {
                if !b.full_spec() {
                    lemma_items_text_2(b1, d, sp);
                    assert(doc_text(b1, d as int) == doc_text(bd, d as int));
                    lemma_items_layout_2(b1, d, sp);
                    assert(doc_layout(b1, d as int) == doc_layout(bd, d as int));
                    assert(doc_text(b1, d as int) + Seq::<Span>::empty() =~= doc_text(b1, d as int));
                }
            }
        } else if edge && id == k.colon {
            parts.push(Part { role: Role::Opener(OpenerKind::Connective), doc: d });
        } else if id == k.dot {
            parts.push(Part { role: Role::Tail, doc: d });
        } else {
            parts.push(Part { role: Role::Element, doc: d });
        }
        proof {
            if !b.full_spec() {
                let part = parts@.last();
                assert(parts@ == p0.push(part));
                lemma_parts_text_push(*b, p0, part);
                lemma_parts_text_stable(bs, *b, p0, 0, p0.len() as int);
                assert(doc_text(bs, built@[c as int] as int) == doc_text(b0, built@[c as int] as int));
                let s1 = kids@.subrange(0, j + 1);
                assert(s1.drop_last() =~= kids@.subrange(0, j as int));
                assert(s1.last() == kids@[j as int]);
                lemma_parts_layout_push(*b, p0, part);
                lemma_parts_layout_stable(bs, *b, p0, 0, p0.len() as int);
                assert(doc_layout(bs, built@[c as int] as int) == doc_layout(b0, built@[c as int] as int));
                if all_uncommented(ctx, kids@) {
                    assert(uncommented(ctx, kids@[j as int].1 as int));
                    assert(kids@[j as int].1 == c);
                }
            }
            if !edge || bodiless_edge(ctx, kids@) {
                if j > 0 {
                    assert(kid_kind(ctx, kids@[j as int]) != ctx.kinds.colon || !edge);
                }
                assert(no_necks(parts@)) by {
                    let part = parts@.last();
                    assert(parts@ == p0.push(part));
                    assert forall|q: int| 0 <= q < parts@.len() implies (#[trigger] parts@[q]).role != Role::Opener(OpenerKind::Connective) by {
                        if q < p0.len() {
                            assert(parts@[q] == p0[q]);
                        }
                    }
                }
            }
        }
        j = j + 1;
    }
    proof {
        assert(kids@.subrange(0, j as int) =~= kids@);
    }
    let id = finish_parts(ctx, i, &mut parts, false, built, b);
    proof {
        if !b.full_spec() && ctx.at.by_anchor@[i as int].dangling@.len() == 0 {
            lemma_code_kids_text(ctx, built@, b0, i as int, ctx.cst.nodes@[i as int].count as int);
        }
    }
    id
}

/// `#program name (parameters)? .`
pub fn lower_program(ctx: &Ctx, i: usize, built: &Vec<NodeId>, b: &mut DocBuilder) -> (id: NodeId)
    requires
        env_ok(ctx, built@, *old(b)),
        i < ctx.cst.nodes@.len(),
    ensures
        lowered(ctx, built@, *old(b), *final(b), id),
        settled(*old(b), *final(b)),
        !final(b).full_spec() && ctx.at.by_anchor@[i as int].dangling@.len() == 0 ==> doc_text(*final(b), id as int)
            == kids_text(ctx, built@, *old(b), i as int, ctx.cst.nodes@[i as int].count as int),
        ({
            let kids = code_kids(ctx.cst.nodes@, ctx.kinds, i as int, ctx.cst.nodes@[i as int].count as int);
            !final(b).full_spec() && ctx.at.by_anchor@[i as int].dangling@.len() == 0 && all_uncommented(ctx, kids)
                ==> doc_layout(*final(b), id as int) == keyword_block_layout(built@, *old(b), kids, kids.len() as int)
        }),
{
    lower_keyword_bracket(ctx, i, false, built, b)
}

/// `#edge ( pair (; pair)* ) (: body)? .`: the pairs always laid flat.
pub fn lower_edge(ctx: &Ctx, i: usize, built: &Vec<NodeId>, b: &mut DocBuilder) -> (id: NodeId)
    requires
        env_ok(ctx, built@, *old(b)),
        i < ctx.cst.nodes@.len(),
    ensures
        lowered(ctx, built@, *old(b), *final(b), id),
        settled(*old(b), *final(b)),
        !final(b).full_spec() && ctx.at.by_anchor@[i as int].dangling@.len() == 0 ==> doc_text(*final(b), id as int)
            == kids_text(ctx, built@, *old(b), i as int, ctx.cst.nodes@[i as int].count as int),
        ({
            let kids = code_kids(ctx.cst.nodes@, ctx.kinds, i as int, ctx.cst.nodes@[i as int].count as int);
            !final(b).full_spec() && ctx.at.by_anchor@[i as int].dangling@.len() == 0 && bodiless_edge(ctx, kids)
                && all_uncommented(ctx, kids) ==> doc_layout(*final(b), id as int) == edge_layout(
                ctx,
                built@,
                *old(b),
                kids,
                kids.len() as int,
            )
        }),
{
    lower_keyword_bracket(ctx, i, true, built, b)
}

/// The kind of the node a child entry names.
pub open spec fn kid_kind(ctx: &Ctx, kid: (u16, usize)) -> u16 {
    ctx.cst.nodes@[kid.1 as int].kind
}

/// The first index at or after `q` whose child is a `]`, or the length.
pub open spec fn first_close(ctx: &Ctx, kids: Seq<(u16, usize)>, q: int) -> int
    decreases kids.len() - q,
{
    if q < 0 || q >= kids.len() {
        kids.len() as int
    } else if kid_kind(ctx, kids[q]) == ctx.kinds.rbracket {
        q
    } else {
        first_close(ctx, kids, q + 1)
    }
}

/// The index after the `[ … ]` tail that starts at `kids[start]`: just past
/// its first `]`, or the end of the children when there is none.
pub open spec fn bracket_next(ctx: &Ctx, kids: Seq<(u16, usize)>, start: int) -> int {
    let p = first_close(ctx, kids, start);
    if start <= p < kids.len() {
        p + 1
    } else {
        kids.len() as int
    }
}

/// The roles of a run of parts.
pub open spec fn roles_of(s: Seq<Part>) -> Seq<Role> {
    s.map_values(|p: Part| p.role)
}

/// A `[ … ]` tail starting at `kids[start]` (the `[`), through its `]`: a real
/// breakable tight bracket with a baked leading space, `,` a spaced separator.
/// Returns the tail's doc and the index after the `]`.
pub fn bracket_tail(
    ctx: &Ctx,
    i: usize,
    kids: &Vec<(u16, usize)>,
    start: usize,
    built: &Vec<NodeId>,
    b: &mut DocBuilder,
) -> (r: (NodeId, usize))
    requires
        env_ok(ctx, built@, *old(b)),
        i < ctx.cst.nodes@.len(),
        kids_ok(ctx, i, kids@),
        start < kids@.len(),
    ensures
        lowered(ctx, built@, *old(b), *final(b), r.0),
        start < r.1 <= kids@.len(),
        r.1 == bracket_next(ctx, kids@, start as int),
        settled(*old(b), *final(b)),
        !final(b).full_spec() ==> padded(doc_layout(*final(b), r.0 as int), Padding::Before),
        !final(b).full_spec() ==> doc_text(*final(b), r.0 as int) == code_text(
            ctx,
            built@,
            *old(b),
            kids@.subrange(start as int, r.1 as int),
        ),
{
    let k = ctx.kinds;
    let mut parts: Vec<Part> = Vec::new();
    let mut j = start;
    let mut done = false;
    let ghost b0 = *b;
    assert(parts_text(*b, parts@, 0, 0) =~= Seq::<Span>::empty());
    assert(kids@.subrange(start as int, start as int) =~= Seq::<(u16, usize)>::empty());
    while j < kids.len() && !done
        invariant
            env_ok(ctx, built@, *b),
            env_ok(ctx, built@, b0),
            b0 == *old(b),
            grows(*old(b), *b),
            settled(*old(b), *b),
            !b.full_spec() ==> parts_text(*b, parts@, 0, parts@.len() as int) == code_text(
                ctx,
                built@,
                b0,
                kids@.subrange(start as int, j as int),
            ),
            i < ctx.cst.nodes@.len(),
            start <= j <= kids@.len(),
            j == start ==> !done,
            kids_ok(ctx, i, kids@),
            parts_ok(parts@, *b),
            k == ctx.kinds,
            !done ==> first_close(ctx, kids@, start as int) == first_close(ctx, kids@, j as int),
            done ==> first_close(ctx, kids@, start as int) == j - 1 && start <= j - 1,
        decreases kids@.len() - j,
    {
        let c = kids[j].1;
        let id = ctx.cst.nodes[c].kind;
        let ghost bs = *b;
        let ghost p0 = parts@;
        assert(built@[c as int] < b0.nodes_spec().len());
        let d = child_doc(ctx, built, c, b);
        let role = if id == k.lbracket {
            Role::Opener(OpenerKind::Bracket(Pad::Tight))
        } else if id == k.rbracket {
            Role::Closer
        } else if id == k.comma {
            Role::Separator(comma_spacing(0))
        } else {
            Role::Element
        };
        let part = Part { role, doc: d };
        parts.push(part);
        proof {
            if !b.full_spec() {
                lemma_parts_text_push(*b, p0, part);
                lemma_parts_text_stable(bs, *b, p0, 0, p0.len() as int);
                assert(doc_text(bs, built@[c as int] as int) == doc_text(b0, built@[c as int] as int));
                let s1 = kids@.subrange(start as int, j + 1);
                assert(s1.drop_last() =~= kids@.subrange(start as int, j as int));
                assert(s1.last() == kids@[j as int]);
            }
        }
        j = j + 1;
        done = id == k.rbracket;
    }
    let (indent, neck) = nest_deltas(ctx.style);
    let ghost b2 = *b;
    let ghost pf = parts@;
    let bracket = assemble(ctx, b, parts.as_slice(), indent, neck, false);
    let lead = e_space(ctx, b);
    let ghost b1 = *b;
    let d = e_seq(ctx, b, &[lead, bracket]);
    proof {
        if !b.full_spec() {
            lemma_items_layout_2(b1, lead, bracket);
            lemma_items_text_2(b1, lead, bracket);
            assert(doc_text(b1, bracket as int) == parts_text(b2, pf, 0, pf.len() as int));
            assert(Seq::<Span>::empty() + doc_text(b1, bracket as int) =~= doc_text(b1, bracket as int));
        }
    }
    (d, j)
}

/// The seam class of a node kind: the necks `:-` and `.` hard punctuation, `:`
/// the colon, identifiers / variables words, numbers numbers, else none.
pub open spec fn tok_class(k: &KindIds, id: u16) -> Option<Class> {
    if id == k.neck {
        Some(Class::HardPunct)
    } else if id == k.colon {
        Some(Class::Colon)
    } else if id == k.dot {
        Some(Class::HardPunct)
    } else if id == k.identifier || id == k.variable {
        Some(Class::Ident)
    } else if id == k.number {
        Some(Class::Number)
    } else {
        None
    }
}

/// Whether two seam tokens fuse: tokens of nodes `n` and `t`, an unclassified
/// (or unsliceable) one counting as fusing.
pub open spec fn seam_fuses_spec(ctx: &Ctx, n: int, t: int) -> bool {
    if node_sliceable(ctx, n) && tok_class(ctx.kinds, ctx.cst.nodes@[n].kind) is Some && node_sliceable(ctx, t)
        && tok_class(ctx.kinds, ctx.cst.nodes@[t].kind) is Some {
        crate::fusion::fuses_spec(
            tok_class(ctx.kinds, ctx.cst.nodes@[n].kind)->0,
            node_chars(ctx, n),
            tok_class(ctx.kinds, ctx.cst.nodes@[t].kind)->0,
            node_chars(ctx, t),
        )
    } else {
        true
    }
}

/// Classify node `c`'s token for seam checks: the necks `:-` and `.` are hard
/// punctuation, `:` the colon, identifiers / variables words, numbers numbers;
/// anything else is unclassified.
pub fn tok_of<'a>(ctx: &Ctx<'a>, c: usize) -> (r: Option<Tok<'a>>)
    requires
        ctx.ok(),
        c < ctx.cst.nodes@.len(),
    ensures
        r is Some <==> node_sliceable(ctx, c as int) && tok_class(ctx.kinds, ctx.cst.nodes@[c as int].kind) is Some,
        r matches Some(t) ==> Some(t.class) == tok_class(ctx.kinds, ctx.cst.nodes@[c as int].kind) && t.text@
            == node_chars(ctx, c as int),
{
    let k = ctx.kinds;
    let id = ctx.cst.nodes[c].kind;
    let text = match node_text(ctx, c) {
        Some(t) => t,
        None => {
            return None;
        },
    };
    if id == k.neck {
        Some(Tok { class: Class::HardPunct, text })
    } else if id == k.colon {
        Some(Tok { class: Class::Colon, text })
    } else if id == k.dot {
        Some(Tok { class: Class::HardPunct, text })
    } else if id == k.identifier || id == k.variable {
        Some(Tok { class: Class::Ident, text })
    } else if id == k.number {
        Some(Tok { class: Class::Number, text })
    } else {
        None
    }
}

/// Whether a trailing neck's last token would fuse with the tail's first. An
/// unclassified seam token counts as fusing (keep a space); no neck or no tail
/// means no abutment.
pub fn seam_fuses(ctx: &Ctx, neck: Option<usize>, tail_first: Option<usize>) -> (r: bool)
    requires
        ctx.ok(),
        neck matches Some(n) ==> n < ctx.cst.nodes@.len(),
        tail_first matches Some(t) ==> t < ctx.cst.nodes@.len(),
    ensures
        r == match (neck, tail_first) {
            (Some(n), Some(t)) => seam_fuses_spec(ctx, n as int, t as int),
            _ => false,
        },
{
    match (neck, tail_first) {
        (Some(n), Some(t)) => match (tok_of(ctx, n), tok_of(ctx, t)) {
            (Some(l), Some(r)) => fuses(l, r),
            _ => true,
        },
        _ => false,
    }
}

/// The roles of a statement's children from `kids[j]` on, with the neck and
/// the `.` seen last (starting from `neck` / `dot`): a `[` opens one `Tail`
/// through its `]`, a `:-` / `:~` is the connective, a `.` the tail, all else
/// elements.
pub open spec fn statement_walk(
    ctx: &Ctx,
    kids: Seq<(u16, usize)>,
    j: int,
    neck: Option<usize>,
    dot: Option<usize>,
) -> (Seq<Role>, Option<usize>, Option<usize>)
    decreases kids.len() - j,
{
    if j < 0 || j >= kids.len() {
        (Seq::empty(), neck, dot)
    } else {
        let c = kids[j].1;
        let id = kid_kind(ctx, kids[j]);
        if id == ctx.kinds.lbracket {
            let w = statement_walk(ctx, kids, bracket_next(ctx, kids, j), neck, dot);
            (seq![Role::Tail] + w.0, w.1, w.2)
        } else if id == ctx.kinds.neck || id == ctx.kinds.weak_neck {
            let w = statement_walk(ctx, kids, j + 1, Some(c), dot);
            (seq![Role::Opener(OpenerKind::Connective)] + w.0, w.1, w.2)
        } else if id == ctx.kinds.dot {
            let w = statement_walk(ctx, kids, j + 1, neck, Some(c));
            (seq![Role::Tail] + w.0, w.1, w.2)
        } else {
            let w = statement_walk(ctx, kids, j + 1, neck, dot);
            (seq![Role::Element] + w.0, w.1, w.2)
        }
    }
}

/// Where each of a statement's parts from `kids[j]` on comes from: the child
/// it wraps, or `None` for a `[ … ]` tail gobbling several children.
pub open spec fn statement_sources(ctx: &Ctx, kids: Seq<(u16, usize)>, j: int) -> Seq<Option<usize>>
    decreases kids.len() - j,
{
    if j < 0 || j >= kids.len() {
        Seq::empty()
    } else if kid_kind(ctx, kids[j]) == ctx.kinds.lbracket {
        seq![None] + statement_sources(ctx, kids, bracket_next(ctx, kids, j))
    } else {
        seq![Some(kids[j].1)] + statement_sources(ctx, kids, j + 1)
    }
}

/// A statement part's Doc against its source in `b0`: a wrapped child has the
/// child's text; a `[ … ]` tail is led by a blank.
pub open spec fn statement_part_ok(ctx: &Ctx, built: Seq<NodeId>, b0: DocBuilder, b: DocBuilder, p: Part, s: Option<usize>) -> bool {
    match s {
        Some(c) => {
            &&& doc_text(b, p.doc as int) == child_text(ctx, b0, built[c as int], c as int)
            &&& uncommented(ctx, c as int) ==> doc_layout(b, p.doc as int) == doc_layout(b0, built[c as int] as int)
        },
        None => padded(doc_layout(b, p.doc as int), Padding::Before),
    }
}

/// No comment is anchored before or after node `c`.
pub open spec fn uncommented(ctx: &Ctx, c: int) -> bool {
    ctx.at.by_anchor@[c].leading@.len() == 0 && ctx.at.by_anchor@[c].trailing@.len() == 0
}

/// Whether a child is a statement's neck (`:-` / `:~`).
pub open spec fn is_neck_kid(ctx: &Ctx, kid: (u16, usize)) -> bool {
    kid_kind(ctx, kid) == ctx.kinds.neck || kid_kind(ctx, kid) == ctx.kinds.weak_neck
}

/// The index of the first neck among `kids[j..]`, or the length.
pub open spec fn neck_at(ctx: &Ctx, kids: Seq<(u16, usize)>, j: int) -> int
    decreases kids.len() - j,
{
    if j < 0 || j >= kids.len() {
        kids.len() as int
    } else if is_neck_kid(ctx, kids[j]) {
        j
    } else {
        neck_at(ctx, kids, j + 1)
    }
}

/// A statement with a plain head: at least one child comes before its first
/// neck, no `[` comes up to the neck, and no comment is anchored to the head's
/// children or to the neck.
pub open spec fn plain_head(ctx: &Ctx, kids: Seq<(u16, usize)>) -> bool {
    let m = neck_at(ctx, kids, 0);
    &&& 0 < m < kids.len()
    &&& forall|q: int| 0 <= q <= m ==> kid_kind(ctx, #[trigger] kids[q]) != ctx.kinds.lbracket
    &&& forall|q: int| 0 <= q <= m ==> uncommented(ctx, (#[trigger] kids[q]).1 as int)
}

/// A headless statement (an integrity or weak constraint) whose neck leads:
/// something follows the neck, and no comment is anchored to it.
pub open spec fn plain_neck(ctx: &Ctx, kids: Seq<(u16, usize)>) -> bool {
    &&& neck_at(ctx, kids, 0) == 0
    &&& kids.len() > 1
    &&& kid_kind(ctx, kids[0]) != ctx.kinds.lbracket
    &&& uncommented(ctx, kids[0].1 as int)
}

/// No comment is anchored before or after any of the children `kids`.
pub open spec fn all_uncommented(ctx: &Ctx, kids: Seq<(u16, usize)>) -> bool {
    forall|q: int| 0 <= q < kids.len() ==> uncommented(ctx, (#[trigger] kids[q]).1 as int)
}

/// The layouts of the children `kids[0..m)`, each as its Doc from `built` in `b`.
pub open spec fn kids_layout(built: Seq<NodeId>, b: DocBuilder, kids: Seq<(u16, usize)>, m: int) -> Seq<Piece>
    decreases m,
{
    if m <= 0 {
        Seq::empty()
    } else {
        kids_layout(built, b, kids, m - 1) + doc_layout(b, built[kids[m - 1].1 as int] as int)
    }
}

/// Up to the first neck, a statement's parts follow its children one for one:
/// the neck is the first connective, and each part comes from its child.
pub proof fn lemma_statement_prefix(
    ctx: &Ctx,
    kids: Seq<(u16, usize)>,
    j: int,
    nk: Option<usize>,
    dt: Option<usize>,
)
    requires
        0 <= j,
        neck_at(ctx, kids, j) < kids.len(),
        forall|q: int| j <= q <= neck_at(ctx, kids, j) ==> kid_kind(ctx, #[trigger] kids[q]) != ctx.kinds.lbracket,
    ensures
        ({
            let m = neck_at(ctx, kids, j);
            let w = statement_walk(ctx, kids, j, nk, dt).0;
            let ss = statement_sources(ctx, kids, j);
            &&& j <= m
            &&& w.len() > m - j
            &&& ss.len() > m - j
            &&& w[m - j] == Role::Opener(OpenerKind::Connective)
            &&& forall|r: int| 0 <= r < m - j ==> #[trigger] w[r] != Role::Opener(OpenerKind::Connective)
            &&& forall|r: int| 0 <= r <= m - j ==> #[trigger] ss[r] == Some(kids[j + r].1)
        }),
    decreases kids.len() - j,
{
    let m = neck_at(ctx, kids, j);
    assert(j < kids.len());
    if is_neck_kid(ctx, kids[j]) {
        assert(m == j);
        assert(kid_kind(ctx, kids[j]) != ctx.kinds.lbracket);
    } else {
        assert(m == neck_at(ctx, kids, j + 1));
        let nd = if kid_kind(ctx, kids[j]) == ctx.kinds.dot { Some(kids[j].1) } else { dt };
        lemma_statement_prefix(ctx, kids, j + 1, nk, nd);
        assert(kid_kind(ctx, kids[j]) != ctx.kinds.lbracket);
        let w = statement_walk(ctx, kids, j, nk, dt).0;
        let w1 = statement_walk(ctx, kids, j + 1, nk, nd).0;
        let ss = statement_sources(ctx, kids, j);
        let ss1 = statement_sources(ctx, kids, j + 1);
        assert forall|r: int| 0 <= r < m - j implies #[trigger] w[r] != Role::Opener(OpenerKind::Connective) by {
            if r > 0 {
                assert(w[r] == w1[r - 1]);
            }
        }
        assert forall|r: int| 0 <= r <= m - j implies #[trigger] ss[r] == Some(kids[j + r].1) by {
            if r > 0 {
                assert(ss[r] == ss1[r - 1]);
                assert(j + 1 + (r - 1) == j + r);
            }
        }
    }
}

/// With no connective before `m` and one at `m`, the scan for one lands on `m`.
pub proof fn lemma_first_at_hit(s: Seq<Part>, k: int, m: int, w: Which)
    requires
        0 <= k <= m < s.len(),
        forall|q: int| k <= q < m ==> !is_which((#[trigger] s[q]).role, w),
        is_which(s[m].role, w),
    ensures
        first_at(s, k, w) == m,
    decreases m - k,
{
    if k < m {
        assert(!is_which(s[k].role, w));
        lemma_first_at_hit(s, k + 1, m, w);
    }
}

/// Parts whose docs are laid out as the children's Docs lay out those children.
pub proof fn lemma_parts_kids_layout(
    bp: DocBuilder,
    b0: DocBuilder,
    parts: Seq<Part>,
    built: Seq<NodeId>,
    kids: Seq<(u16, usize)>,
    m: int,
)
    requires
        0 <= m,
        forall|q: int| 0 <= q < m ==> doc_layout(bp, (#[trigger] parts[q]).doc as int) == doc_layout(b0, built[kids[q].1 as int] as int),
    ensures
        parts_layout(bp, parts, 0, m) == kids_layout(built, b0, kids, m),
    decreases m,
{
    if m > 0 {
        assert(doc_layout(bp, parts[m - 1].doc as int) == doc_layout(b0, built[kids[m - 1].1 as int] as int));
        lemma_parts_kids_layout(bp, b0, parts, built, kids, m - 1);
    }
}

/// Roles of a rule's / constraint's / weak constraint's children: the neck
/// (`:-` / `:~`) the connective, the `.` the tail, a `[ weight (, terms)? ]`
/// gobbled into one breakable tail, the head and body elements. Also whether
/// the neck would fuse with the tail.
pub fn statement_parts(ctx: &Ctx, i: usize, built: &Vec<NodeId>, b: &mut DocBuilder) -> (r: (Vec<Part>, bool))
    requires
        env_ok(ctx, built@, *old(b)),
        i < ctx.cst.nodes@.len(),
    ensures
        env_ok(ctx, built@, *final(b)),
        grows(*old(b), *final(b)),
        parts_ok(r.0@, *final(b)),
        ({
            let w = statement_walk(
                ctx,
                code_kids(ctx.cst.nodes@, ctx.kinds, i as int, ctx.cst.nodes@[i as int].count as int),
                0,
                None,
                None,
            );
            &&& roles_of(r.0@) == w.0
            &&& r.1 == match (w.1, w.2) {
                (Some(n), Some(t)) => seam_fuses_spec(ctx, n as int, t as int),
                _ => false,
            }
        }),
        settled(*old(b), *final(b)),
        !final(b).full_spec() ==> parts_text(*final(b), r.0@, 0, r.0@.len() as int) == code_text(
            ctx,
            built@,
            *old(b),
            code_kids(ctx.cst.nodes@, ctx.kinds, i as int, ctx.cst.nodes@[i as int].count as int),
        ),
        ({
            let srcs = statement_sources(
                ctx,
                code_kids(ctx.cst.nodes@, ctx.kinds, i as int, ctx.cst.nodes@[i as int].count as int),
                0,
            );
            &&& srcs.len() == r.0@.len()
            &&& !final(b).full_spec() ==> forall|q: int|
                0 <= q < r.0@.len() ==> statement_part_ok(ctx, built@, *old(b), *final(b), #[trigger] r.0@[q], srcs[q])
        }),
{
    let k = ctx.kinds;
    let kids = walk_code_children(ctx, i);
    let ghost all = kids@;
    let ghost w0 = statement_walk(ctx, all, 0, None, None);
    let mut parts: Vec<Part> = Vec::new();
    let mut neck_node: Option<usize> = None;
    let mut tail_node: Option<usize> = None;
    let mut j: usize = 0;
    let ghost b0 = *b;
    let ghost mut srcs: Seq<Option<usize>> = Seq::empty();
    assert(roles_of(parts@) + w0.0 =~= w0.0);
    assert(parts_text(*b, parts@, 0, 0) =~= Seq::<Span>::empty());
    assert(all.subrange(0, 0) =~= Seq::<(u16, usize)>::empty());
    assert(srcs + statement_sources(ctx, all, 0) =~= statement_sources(ctx, all, 0));
    while j < kids.len()
        invariant
            env_ok(ctx, built@, *b),
            env_ok(ctx, built@, b0),
            b0 == *old(b),
            grows(*old(b), *b),
            settled(*old(b), *b),
            srcs + statement_sources(ctx, all, j as int) == statement_sources(ctx, all, 0),
            srcs.len() == parts@.len(),
            !b.full_spec() ==> forall|q: int|
                0 <= q < parts@.len() ==> statement_part_ok(ctx, built@, b0, *b, #[trigger] parts@[q], srcs[q]),
            !b.full_spec() ==> parts_text(*b, parts@, 0, parts@.len() as int) == code_text(
                ctx,
                built@,
                b0,
                all.subrange(0, j as int),
            ),
            i < ctx.cst.nodes@.len(),
            j <= kids@.len(),
            kids_ok(ctx, i, kids@),
            parts_ok(parts@, *b),
            neck_node matches Some(n) ==> n < ctx.cst.nodes@.len(),
            tail_node matches Some(t) ==> t < ctx.cst.nodes@.len(),
            k == ctx.kinds,
            kids@ == all,
            w0 == statement_walk(ctx, all, 0, None, None),
            roles_of(parts@) + statement_walk(ctx, all, j as int, neck_node, tail_node).0 == w0.0,
            statement_walk(ctx, all, j as int, neck_node, tail_node).1 == w0.1,
            statement_walk(ctx, all, j as int, neck_node, tail_node).2 == w0.2,
        decreases kids@.len() - j,
    {
        let ghost p0 = parts@;
        let ghost j0 = j as int;
        let ghost n0 = neck_node;
        let ghost t0 = tail_node;
        let ghost bs = *b;
        let ghost src: Option<usize> = None;
        let c = kids[j].1;
        let id = ctx.cst.nodes[c].kind;
        if id == k.lbracket {
            let (tail, next) = bracket_tail(ctx, i, &kids, j, built, b);
            let part = Part { role: Role::Tail, doc: tail };
            parts.push(part);
            proof {
                if !b.full_spec() {
                    lemma_parts_text_push(*b, p0, part);
                    lemma_parts_text_stable(bs, *b, p0, 0, p0.len() as int);
                    let run = all.subrange(j as int, next as int);
                    assert forall|q: int| 0 <= q < run.len() implies 0 <= (#[trigger] run[q]).1 < built@.len() by {
                        assert(run[q] == all[j + q]);
                    }
                    lemma_code_text_stable(ctx, built@, b0, bs, run);
                    lemma_code_text_concat(ctx, built@, b0, all.subrange(0, j as int), run);
                    assert(all.subrange(0, j as int) + run =~= all.subrange(0, next as int));
                }
            }
            j = next;
        } else {
            proof {
                src = Some(c);
                assert(built@[c as int] < b0.nodes_spec().len());
                assert(doc_text(bs, built@[c as int] as int) == doc_text(b0, built@[c as int] as int));
            }
            let role = if id == k.neck || id == k.weak_neck {
                neck_node = Some(c);
                Role::Opener(OpenerKind::Connective)
            } else if id == k.dot {
                tail_node = Some(c);
                Role::Tail
            } else {
                Role::Element
            };
            let d = child_doc(ctx, built, c, b);
            let part = Part { role, doc: d };
            parts.push(part);
            proof {
                if !b.full_spec() {
                    assert(doc_layout(bs, built@[c as int] as int) == doc_layout(b0, built@[c as int] as int));
                    lemma_parts_text_push(*b, p0, part);
                    lemma_parts_text_stable(bs, *b, p0, 0, p0.len() as int);
                    let s1 = all.subrange(0, j + 1);
                    assert(s1.drop_last() =~= all.subrange(0, j as int));
                    assert(s1.last() == all[j as int]);
                }
            }
            j = j + 1;
        }
        proof {
            assert(parts@.drop_last() == p0);
            assert(roles_of(parts@) =~= roles_of(p0).push(parts@.last().role));
            let wj = statement_walk(ctx, all, j0, n0, t0);
            let wn = statement_walk(ctx, all, j as int, neck_node, tail_node);
            assert(wj.0 =~= seq![parts@.last().role] + wn.0);
            assert(wj.1 == wn.1 && wj.2 == wn.2);
            assert(roles_of(parts@) + wn.0 =~= roles_of(p0) + wj.0);
            let s0 = srcs;
            srcs = srcs.push(src);
            assert(srcs + statement_sources(ctx, all, j as int) =~= s0 + statement_sources(ctx, all, j0));
            if !b.full_spec() {
                assert forall|q: int| 0 <= q < parts@.len() implies statement_part_ok(
                    ctx,
                    built@,
                    b0,
                    *b,
                    #[trigger] parts@[q],
                    srcs[q],
                ) by {
                    if q < p0.len() {
                        assert(parts@[q] == p0[q]);
                        assert(doc_text(*b, p0[q].doc as int) == doc_text(bs, p0[q].doc as int));
                        assert(doc_layout(*b, p0[q].doc as int) == doc_layout(bs, p0[q].doc as int));
                    }
                }
            }
        }
    }
    proof {
        let wn = statement_walk(ctx, all, j as int, neck_node, tail_node);
        assert(wn.0 =~= Seq::<Role>::empty());
        assert(roles_of(parts@) + Seq::<Role>::empty() =~= roles_of(parts@));
        assert(statement_sources(ctx, all, j as int) =~= Seq::<Option<usize>>::empty());
        assert(srcs + Seq::<Option<usize>>::empty() =~= srcs);
        assert(all.subrange(0, j as int) =~= all);
    }
    let f = seam_fuses(ctx, neck_node, tail_node);
    (parts, f)
}

/// A headed rule, an integrity constraint, or a weak constraint: the neck leads
/// when headless and trails otherwise.
pub fn lower_statement(ctx: &Ctx, i: usize, built: &Vec<NodeId>, b: &mut DocBuilder) -> (id: NodeId)
    requires
        env_ok(ctx, built@, *old(b)),
        i < ctx.cst.nodes@.len(),
    ensures
        lowered(ctx, built@, *old(b), *final(b), id),
        settled(*old(b), *final(b)),
        !final(b).full_spec() && ctx.at.by_anchor@[i as int].dangling@.len() == 0 ==> doc_text(*final(b), id as int)
            == kids_text(ctx, built@, *old(b), i as int, ctx.cst.nodes@[i as int].count as int),
        ({
            let kids = code_kids(ctx.cst.nodes@, ctx.kinds, i as int, ctx.cst.nodes@[i as int].count as int);
            let m = neck_at(ctx, kids, 0);
            !final(b).full_spec() && ctx.at.by_anchor@[i as int].dangling@.len() == 0 && plain_head(ctx, kids)
                ==> lays_first(
                doc_layout(*final(b), id as int),
                kids_layout(built@, *old(b), kids, m) + seq![Piece::Blank] + doc_layout(
                    *old(b),
                    built@[kids[m].1 as int] as int,
                ),
            )
        }),
        ({
            let kids = code_kids(ctx.cst.nodes@, ctx.kinds, i as int, ctx.cst.nodes@[i as int].count as int);
            !final(b).full_spec() && ctx.at.by_anchor@[i as int].dangling@.len() == 0 && plain_neck(ctx, kids)
                ==> lays_first(
                doc_layout(*final(b), id as int),
                doc_layout(*old(b), built@[kids[0].1 as int] as int) + seq![Piece::Blank],
            )
        }),
{
    let ghost b0 = *b;
    let (mut parts, fuses_at_seam) = statement_parts(ctx, i, built, b);
    let ghost bp = *b;
    let ghost p0 = parts@;
    let np = parts.len();
    proof {
        let kids = code_kids(ctx.cst.nodes@, ctx.kinds, i as int, ctx.cst.nodes@[i as int].count as int);
        assert(p0.len() == np);
        if plain_head(ctx, kids) {
            let m = neck_at(ctx, kids, 0);
            lemma_statement_prefix(ctx, kids, 0, None, None);
            let w = statement_walk(ctx, kids, 0, None, None);
            let srcs = statement_sources(ctx, kids, 0);
            assert forall|q: int| 0 <= q < m implies !is_which((#[trigger] p0[q]).role, Which::Connective) by {
                assert(roles_of(p0)[q] == p0[q].role);
                assert(w.0[q] != Role::Opener(OpenerKind::Connective));
            }
            assert(roles_of(p0)[m] == p0[m].role);
            lemma_first_at_hit(p0, 0, m, Which::Connective);
            assert(classify_spec(p0) is TrailingNeck);
            assert(classify_spec(p0)->TrailingNeck_neck == m);
            if !bp.full_spec() {
                assert forall|q: int| 0 <= q < m implies doc_layout(bp, (#[trigger] p0[q]).doc as int) == doc_layout(
                    b0,
                    built@[kids[q].1 as int] as int,
                ) by {
                    assert(srcs[q] == Some(kids[0 + q].1));
                    assert(statement_part_ok(ctx, built@, b0, bp, p0[q], srcs[q]));
                    assert(uncommented(ctx, kids[q].1 as int));
                }
                lemma_parts_kids_layout(bp, b0, p0, built@, kids, m);
                assert(srcs[m] == Some(kids[0 + m].1));
                assert(statement_part_ok(ctx, built@, b0, bp, p0[m], srcs[m]));
                assert(uncommented(ctx, kids[m].1 as int));
            }
        }
        if plain_neck(ctx, kids) {
            lemma_statement_prefix(ctx, kids, 0, None, None);
            let w = statement_walk(ctx, kids, 0, None, None);
            let srcs = statement_sources(ctx, kids, 0);
            assert(roles_of(p0)[0] == p0[0].role);
            lemma_first_at_hit(p0, 0, 0, Which::Connective);
            assert(classify_spec(p0) is LeadingNeck);
            assert(statement_sources(ctx, kids, 1).len() > 0);
            assert(p0.len() > 1);
            if !bp.full_spec() {
                assert(srcs[0] == Some(kids[0].1));
                assert(statement_part_ok(ctx, built@, b0, bp, p0[0], srcs[0]));
            }
        }
    }
    let id = finish_parts(ctx, i, &mut parts, fuses_at_seam, built, b);
    proof {
        if !b.full_spec() && ctx.at.by_anchor@[i as int].dangling@.len() == 0 {
            lemma_code_kids_text(ctx, built@, b0, i as int, ctx.cst.nodes@[i as int].count as int);
        }
    }
    id
}

/// How a part's Doc is padded with blanks.
pub enum Padding {
    /// No claim.
    Plain,
    /// A blank leads it.
    Before,
    /// A blank ends it.
    After,
    /// A blank on each side.
    Around,
}

/// A layout carries the padding `p`.
pub open spec fn padded(l: Seq<Piece>, p: Padding) -> bool {
    match p {
        Padding::Plain => true,
        Padding::Before => l.len() > 0 && l[0] == Piece::Blank,
        Padding::After => l.len() > 0 && l.last() == Piece::Blank,
        Padding::Around => l.len() > 1 && l[0] == Piece::Blank && l.last() == Piece::Blank,
    }
}

/// The layout of a two-element concatenation.
pub proof fn lemma_items_layout_2(b: DocBuilder, x0: NodeId, x1: NodeId)
    ensures
        items_layout(b, seq![x0, x1]) == doc_layout(b, x0 as int) + doc_layout(b, x1 as int),
{
    assert(seq![x0, x1].drop_last() =~= seq![x0]);
    assert(seq![x0].drop_last() =~= Seq::<NodeId>::empty());
    assert(items_layout(b, Seq::<NodeId>::empty()) == Seq::<Piece>::empty());
    assert(seq![x0].last() == x0);
    assert(items_layout(b, seq![x0]) == items_layout(b, Seq::<NodeId>::empty()) + doc_layout(b, x0 as int));
    assert(items_layout(b, seq![x0]) =~= doc_layout(b, x0 as int));
    assert(seq![x0, x1].last() == x1);
}

/// The layout of a three-element concatenation.
pub proof fn lemma_items_layout_3(b: DocBuilder, x0: NodeId, x1: NodeId, x2: NodeId)
    ensures
        items_layout(b, seq![x0, x1, x2]) == doc_layout(b, x0 as int) + doc_layout(b, x1 as int) + doc_layout(
            b,
            x2 as int,
        ),
{
    assert(seq![x0, x1, x2].drop_last() =~= seq![x0, x1]);
    assert(seq![x0, x1, x2].last() == x2);
    lemma_items_layout_2(b, x0, x1);
}

/// The padding of the directive child `kids[j]` when it is not a `[ … ]` tail:
/// the keyword is followed by a blank unless the directive is bare (`#show.`),
/// and `=` has a blank on each side.
pub open spec fn directive_padding(ctx: &Ctx, kids: Seq<(u16, usize)>, j: int) -> Padding {
    let id = kid_kind(ctx, kids[j]);
    if j == 0 {
        if kids.len() > 1 && kid_kind(ctx, kids[1]) == ctx.kinds.dot {
            Padding::Plain
        } else {
            Padding::After
        }
    } else if id == ctx.kinds.colon {
        Padding::Plain
    } else if id == ctx.kinds.equals {
        Padding::Around
    } else {
        Padding::Plain
    }
}

/// The paddings of a directive's parts from `kids[j]` on, one per part as
/// [`directive_roles`] counts them: a `[ … ]` tail is led by a blank.
pub open spec fn directive_paddings(ctx: &Ctx, kids: Seq<(u16, usize)>, j: int) -> Seq<Padding>
    decreases kids.len() - j,
{
    if j < 0 || j >= kids.len() {
        Seq::empty()
    } else if j > 0 && kid_kind(ctx, kids[j]) == ctx.kinds.lbracket {
        seq![Padding::Before] + directive_paddings(ctx, kids, bracket_next(ctx, kids, j))
    } else {
        seq![directive_padding(ctx, kids, j)] + directive_paddings(ctx, kids, j + 1)
    }
}

/// The role of the directive child `kids[j]` when it is not a `[ … ]` tail.
pub open spec fn directive_role(ctx: &Ctx, kids: Seq<(u16, usize)>, j: int) -> Role {
    let id = kid_kind(ctx, kids[j]);
    if j == 0 {
        Role::Element
    } else if id == ctx.kinds.colon {
        Role::Opener(OpenerKind::Connective)
    } else if id == ctx.kinds.equals {
        Role::Element
    } else if id == ctx.kinds.dot {
        Role::Tail
    } else if id == ctx.kinds.comma || id == ctx.kinds.semicolon {
        Role::Separator(Sep::Spaced)
    } else {
        Role::Element
    }
}

/// The roles of a directive's children from `kids[j]` on: a `[` past the
/// first child opens one `Tail` that runs through its `]`.
pub open spec fn directive_roles(ctx: &Ctx, kids: Seq<(u16, usize)>, j: int) -> Seq<Role>
    decreases kids.len() - j,
{
    if j < 0 || j >= kids.len() {
        Seq::empty()
    } else if j > 0 && kid_kind(ctx, kids[j]) == ctx.kinds.lbracket {
        seq![Role::Tail] + directive_roles(ctx, kids, bracket_next(ctx, kids, j))
    } else {
        seq![directive_role(ctx, kids, j)] + directive_roles(ctx, kids, j + 1)
    }
}

/// A directive whose keyword is spaced from what follows it: it has a first
/// child, it is not bare (`#show.`), and no comment is anchored to the keyword.
pub open spec fn keyword_spaced(ctx: &Ctx, kids: Seq<(u16, usize)>) -> bool {
    &&& kids.len() > 0
    &&& !(kids.len() > 1 && kid_kind(ctx, kids[1]) == ctx.kinds.dot)
    &&& ctx.at.by_anchor@[kids[0].1 as int].leading@.len() == 0
    &&& ctx.at.by_anchor@[kids[0].1 as int].trailing@.len() == 0
}

/// A directive with neither a `:` body nor a `[ … ]` tail past its keyword.
pub open spec fn plain_directive(ctx: &Ctx, kids: Seq<(u16, usize)>) -> bool {
    forall|q: int|
        0 < q < kids.len() ==> kid_kind(ctx, #[trigger] kids[q]) != ctx.kinds.colon && kid_kind(ctx, kids[q])
            != ctx.kinds.lbracket
}

/// A plain directive's child `kids[q]` as its part lays it out: the keyword
/// followed by a blank unless the directive is bare, `=` with a blank on each
/// side, any other child as its Doc from `built` in `b`.
pub open spec fn directive_kid_layout(ctx: &Ctx, built: Seq<NodeId>, b: DocBuilder, kids: Seq<(u16, usize)>, q: int) -> Seq<Piece> {
    let l = doc_layout(b, built[kids[q].1 as int] as int);
    if q == 0 {
        if kids.len() > 1 && kid_kind(ctx, kids[1]) == ctx.kinds.dot {
            l
        } else {
            l + seq![Piece::Blank]
        }
    } else if kid_kind(ctx, kids[q]) == ctx.kinds.equals {
        seq![Piece::Blank] + l + seq![Piece::Blank]
    } else {
        l
    }
}

/// The layouts of a plain directive's children `kids[0..m)` as its parts lay
/// them out.
pub open spec fn directive_layout(ctx: &Ctx, built: Seq<NodeId>, b: DocBuilder, kids: Seq<(u16, usize)>, m: int) -> Seq<Piece>
    decreases m,
{
    if m <= 0 {
        Seq::empty()
    } else {
        directive_layout(ctx, built, b, kids, m - 1) + directive_kid_layout(ctx, built, b, kids, m - 1)
    }
}

/// Parts laid out as a plain directive's children lay out those children.
pub proof fn lemma_parts_directive_layout(
    ctx: &Ctx,
    bp: DocBuilder,
    b0: DocBuilder,
    parts: Seq<Part>,
    built: Seq<NodeId>,
    kids: Seq<(u16, usize)>,
    m: int,
)
    requires
        0 <= m,
        forall|q: int| 0 <= q < m ==> doc_layout(bp, (#[trigger] parts[q]).doc as int) == directive_kid_layout(ctx, built, b0, kids, q),
    ensures
        parts_layout(bp, parts, 0, m) == directive_layout(ctx, built, b0, kids, m),
    decreases m,
{
    if m > 0 {
        assert(doc_layout(bp, parts[m - 1].doc as int) == directive_kid_layout(ctx, built, b0, kids, m - 1));
        lemma_parts_directive_layout(ctx, bp, b0, parts, built, kids, m - 1);
    }
}

/// Roles of a directive's children: the keyword (spaced from its operand unless
/// the directive is bare, `#show.`), a `:` body the connective, `=` spaced on
/// both sides, the `.` glued, a `[ … ]` tail gobbled, `,` / `;` separators, all
/// else operands.
pub fn directive_parts(ctx: &Ctx, i: usize, built: &Vec<NodeId>, b: &mut DocBuilder) -> (parts: Vec<Part>)
    requires
        env_ok(ctx, built@, *old(b)),
        i < ctx.cst.nodes@.len(),
    ensures
        env_ok(ctx, built@, *final(b)),
        grows(*old(b), *final(b)),
        settled(*old(b), *final(b)),
        parts_ok(parts@, *final(b)),
        !final(b).full_spec() ==> parts_text(*final(b), parts@, 0, parts@.len() as int) == code_text(
            ctx,
            built@,
            *old(b),
            code_kids(ctx.cst.nodes@, ctx.kinds, i as int, ctx.cst.nodes@[i as int].count as int),
        ),
        roles_of(parts@) == directive_roles(
            ctx,
            code_kids(ctx.cst.nodes@, ctx.kinds, i as int, ctx.cst.nodes@[i as int].count as int),
            0,
        ),
        ({
            let pads = directive_paddings(
                ctx,
                code_kids(ctx.cst.nodes@, ctx.kinds, i as int, ctx.cst.nodes@[i as int].count as int),
                0,
            );
            &&& pads.len() == parts@.len()
            &&& !final(b).full_spec() ==> forall|q: int|
                0 <= q < parts@.len() ==> padded(doc_layout(*final(b), (#[trigger] parts@[q]).doc as int), pads[q])
        }),
        ({
            let kids = code_kids(ctx.cst.nodes@, ctx.kinds, i as int, ctx.cst.nodes@[i as int].count as int);
            keyword_spaced(ctx, kids) && !final(b).full_spec() ==> parts@.len() > 0 && doc_layout(
                *final(b),
                parts@[0].doc as int,
            ) == doc_layout(*old(b), built@[kids[0].1 as int] as int) + seq![Piece::Blank]
        }),
        ({
            let kids = code_kids(ctx.cst.nodes@, ctx.kinds, i as int, ctx.cst.nodes@[i as int].count as int);
            plain_directive(ctx, kids) ==> {
                &&& parts@.len() == kids.len()
                &&& no_necks(parts@)
                &&& !final(b).full_spec() ==> forall|q: int|
                    0 <= q < parts@.len() && uncommented(ctx, kids[q].1 as int) ==> doc_layout(
                        *final(b),
                        (#[trigger] parts@[q]).doc as int,
                    ) == directive_kid_layout(ctx, built@, *old(b), kids, q)
            }
        }),
{
    let k = ctx.kinds;
    let kids = walk_code_children(ctx, i);
    let ghost all = kids@;
    let mut parts: Vec<Part> = Vec::new();
    let ghost mut pads: Seq<Padding> = Seq::empty();
    let mut j: usize = 0;
    assert(roles_of(parts@) + directive_roles(ctx, all, 0) =~= directive_roles(ctx, all, 0));
    assert(pads + directive_paddings(ctx, all, 0) =~= directive_paddings(ctx, all, 0));
    let ghost b0 = *b;
    assert(parts_text(*b, parts@, 0, 0) =~= Seq::<Span>::empty());
    assert(all.subrange(0, 0) =~= Seq::<(u16, usize)>::empty());
    while j < kids.len()
        invariant
            env_ok(ctx, built@, *b),
            grows(*old(b), *b),
            settled(*old(b), *b),
            i < ctx.cst.nodes@.len(),
            j <= kids@.len(),
            kids_ok(ctx, i, kids@),
            parts_ok(parts@, *b),
            k == ctx.kinds,
            kids@ == all,
            roles_of(parts@) + directive_roles(ctx, all, j as int) == directive_roles(ctx, all, 0),
            pads + directive_paddings(ctx, all, j as int) == directive_paddings(ctx, all, 0),
            pads.len() == parts@.len(),
            !b.full_spec() ==> forall|q: int|
                0 <= q < parts@.len() ==> padded(doc_layout(*b, (#[trigger] parts@[q]).doc as int), pads[q]),
            env_ok(ctx, built@, b0),
            b0 == *old(b),
            plain_directive(ctx, all) ==> parts@.len() == j && no_necks(parts@),
            plain_directive(ctx, all) && !b.full_spec() ==> forall|q: int|
                0 <= q < parts@.len() && uncommented(ctx, all[q].1 as int) ==> doc_layout(
                    *b,
                    (#[trigger] parts@[q]).doc as int,
                ) == directive_kid_layout(ctx, built@, b0, all, q),
            j > 0 && keyword_spaced(ctx, all) && !b.full_spec() ==> parts@.len() > 0 && doc_layout(
                *b,
                parts@[0].doc as int,
            ) == doc_layout(b0, built@[all[0].1 as int] as int) + seq![Piece::Blank],
            !b.full_spec() ==> parts_text(*b, parts@, 0, parts@.len() as int) == code_text(
                ctx,
                built@,
                b0,
                all.subrange(0, j as int),
            ),
        decreases kids@.len() - j,
    {
        let ghost p0 = parts@;
        let ghost j0 = j as int;
        let ghost bs = *b;
        let ghost pad: Padding = Padding::Plain;
        let c = kids[j].1;
        let id = ctx.cst.nodes[c].kind;
        let ghost jj = j as int;
        if j > 0 && id == k.lbracket {
            let (tail, next) = bracket_tail(ctx, i, &kids, j, built, b);
            parts.push(Part { role: Role::Tail, doc: tail });
            proof {
                pad = Padding::Before;
                if !b.full_spec() {
                    let run = all.subrange(jj, next as int);
                    assert forall|q: int| 0 <= q < run.len() implies 0 <= (#[trigger] run[q]).1 < built@.len() by {
                        assert(run[q] == all[jj + q]);
                    }
                    lemma_code_text_stable(ctx, built@, b0, bs, run);
                    lemma_code_text_concat(ctx, built@, b0, all.subrange(0, jj), run);
                    assert(all.subrange(0, jj) + run =~= all.subrange(0, next as int));
                }
            }
            j = next;
        } else {
            proof {
                assert(built@[c as int] < b0.nodes_spec().len());
                assert(doc_text(bs, built@[c as int] as int) == doc_text(b0, built@[c as int] as int));
                let s1 = all.subrange(0, jj + 1);
                assert(s1.drop_last() =~= all.subrange(0, jj));
                assert(s1.last() == all[jj]);
            }
            let d = child_doc(ctx, built, c, b);
            let ghost bd = *b;
            if j == 0 {
                let bare = kids.len() > 1 && ctx.cst.nodes[kids[1].1].kind == k.dot;
                if bare {
                    parts.push(Part { role: Role::Element, doc: d });
                } else {
                    let sp = e_space(ctx, b);
                    let ghost b1 = *b;
                    let d2 = e_seq(ctx, b, &[d, sp]);
                    parts.push(Part { role: Role::Element, doc: d2 });
                    proof {
                        pad = Padding::After;
                        if !b.full_spec() {
                            lemma_items_layout_2(b1, d, sp);
                            assert(doc_layout(b1, d as int) == doc_layout(bd, d as int));
                            assert(doc_layout(bs, built@[c as int] as int) == doc_layout(b0, built@[c as int] as int));
                            lemma_items_text_2(b1, d, sp);
                            assert(doc_text(b1, d as int) == doc_text(bd, d as int));
                            assert(doc_text(b1, d as int) + Seq::<Span>::empty() =~= doc_text(b1, d as int));
                        }
                    }
                }
            } else if id == k.colon {
                parts.push(Part { role: Role::Opener(OpenerKind::Connective), doc: d });
            } else if id == k.equals {
                let before = e_space(ctx, b);
                let ghost b1 = *b;
                let after = e_space(ctx, b);
                let ghost b2 = *b;
                let d2 = e_seq(ctx, b, &[before, d, after]);
                parts.push(Part { role: Role::Element, doc: d2 });
                proof {
                    pad = Padding::Around;
                    if !b.full_spec() {
                        lemma_items_layout_3(b2, before, d, after);
                        assert(doc_layout(b2, before as int) == doc_layout(b1, before as int));
                        lemma_items_text_3(b2, before, d, after);
                        assert(doc_text(b2, before as int) == doc_text(b1, before as int));
                        assert(doc_text(b2, d as int) == doc_text(bd, d as int));
                        assert(Seq::<Span>::empty() + doc_text(b2, d as int) + Seq::<Span>::empty() =~= doc_text(
                            b2,
                            d as int,
                        ));
                    }
                }
            } else if id == k.dot {
                parts.push(Part { role: Role::Tail, doc: d });
            } else if id == k.comma || id == k.semicolon {
                parts.push(Part { role: Role::Separator(comma_spacing(0)), doc: d });
            } else {
                parts.push(Part { role: Role::Element, doc: d });
            }
            j = j + 1;
        }
        proof {
            assert(parts@.drop_last() == p0);
            assert(roles_of(parts@) =~= roles_of(p0).push(parts@.last().role));
            assert(roles_of(parts@) + directive_roles(ctx, all, j as int) =~= roles_of(p0) + directive_roles(
                ctx,
                all,
                j0,
            ));
            if !b.full_spec() {
                let part = parts@.last();
                assert(parts@ == p0.push(part));
                lemma_parts_text_push(*b, p0, part);
                lemma_parts_text_stable(bs, *b, p0, 0, p0.len() as int);
            }
            let pads0 = pads;
            pads = pads.push(pad);
            assert(pads + directive_paddings(ctx, all, j as int) =~= pads0 + directive_paddings(ctx, all, j0));
            if !b.full_spec() {
                assert forall|q: int| 0 <= q < parts@.len() implies padded(
                    doc_layout(*b, (#[trigger] parts@[q]).doc as int),
                    pads[q],
                ) by {
                    if q < p0.len() {
                        assert(parts@[q] == p0[q]);
                        assert(doc_layout(*b, p0[q].doc as int) == doc_layout(bs, p0[q].doc as int));
                    }
                }
                if p0.len() > 0 {
                    assert(parts@[0] == p0[0]);
                    assert(doc_layout(*b, p0[0].doc as int) == doc_layout(bs, p0[0].doc as int));
                }
            }
            if plain_directive(ctx, all) {
                assert(parts@.len() == j);
                assert(no_necks(parts@)) by {
                    assert forall|q: int| 0 <= q < parts@.len() implies (#[trigger] parts@[q]).role != Role::Opener(OpenerKind::Connective) by {
                        if q < p0.len() {
                            assert(parts@[q] == p0[q]);
                        } else {
                            assert(q == j0);
                            if j0 > 0 {
                                assert(kid_kind(ctx, all[j0]) != ctx.kinds.colon);
                            }
                        }
                    }
                }
                if !b.full_spec() {
                    assert forall|q: int|
                        0 <= q < parts@.len() && uncommented(ctx, all[q].1 as int) implies doc_layout(
                        *b,
                        (#[trigger] parts@[q]).doc as int,
                    ) == directive_kid_layout(ctx, built@, b0, all, q) by {
                        if q < p0.len() {
                            assert(parts@[q] == p0[q]);
                            assert(doc_layout(*b, p0[q].doc as int) == doc_layout(bs, p0[q].doc as int));
                        }
                    }
                }
            }
        }
    }
    assert(directive_roles(ctx, all, j as int) =~= Seq::<Role>::empty());
    assert(roles_of(parts@) + Seq::<Role>::empty() =~= roles_of(parts@));
    assert(directive_paddings(ctx, all, j as int) =~= Seq::<Padding>::empty());
    assert(pads + Seq::<Padding>::empty() =~= pads);
    assert(all.subrange(0, j as int) =~= all);
    parts
}

/// A directive through the generic role assignment and the shared assembler.
pub fn lower_directive(ctx: &Ctx, i: usize, built: &Vec<NodeId>, b: &mut DocBuilder) -> (id: NodeId)
    requires
        env_ok(ctx, built@, *old(b)),
        i < ctx.cst.nodes@.len(),
    ensures
        lowered(ctx, built@, *old(b), *final(b), id),
        settled(*old(b), *final(b)),
        !final(b).full_spec() && ctx.at.by_anchor@[i as int].dangling@.len() == 0 ==> doc_text(*final(b), id as int)
            == kids_text(ctx, built@, *old(b), i as int, ctx.cst.nodes@[i as int].count as int),
        ({
            let kids = code_kids(ctx.cst.nodes@, ctx.kinds, i as int, ctx.cst.nodes@[i as int].count as int);
            !final(b).full_spec() && ctx.at.by_anchor@[i as int].dangling@.len() == 0 && keyword_spaced(ctx, kids)
                ==> lays_first(
                doc_layout(*final(b), id as int),
                doc_layout(*old(b), built@[kids[0].1 as int] as int) + seq![Piece::Blank],
            )
        }),
        ({
            let kids = code_kids(ctx.cst.nodes@, ctx.kinds, i as int, ctx.cst.nodes@[i as int].count as int);
            !final(b).full_spec() && ctx.at.by_anchor@[i as int].dangling@.len() == 0 && plain_directive(ctx, kids)
                && all_uncommented(ctx, kids) ==> doc_layout(*final(b), id as int) == directive_layout(
                ctx,
                built@,
                *old(b),
                kids,
                kids.len() as int,
            )
        }),
{
    let ghost b0 = *b;
    let mut parts = directive_parts(ctx, i, built, b);
    let ghost bp = *b;
    let ghost pp = parts@;
    proof {
        let kids = code_kids(ctx.cst.nodes@, ctx.kinds, i as int, ctx.cst.nodes@[i as int].count as int);
        if plain_directive(ctx, kids) && all_uncommented(ctx, kids) && !bp.full_spec() {
            assert forall|q: int| 0 <= q < pp.len() implies doc_layout(bp, (#[trigger] pp[q]).doc as int)
                == directive_kid_layout(ctx, built@, b0, kids, q) by {
                assert(uncommented(ctx, kids[q].1 as int));
            }
            lemma_parts_directive_layout(ctx, bp, b0, pp, built@, kids, pp.len() as int);
        }
    }
    let id = finish_parts(ctx, i, &mut parts, false, built, b);
    proof {
        if !b.full_spec() && ctx.at.by_anchor@[i as int].dangling@.len() == 0 {
            lemma_code_kids_text(ctx, built@, b0, i as int, ctx.cst.nodes@[i as int].count as int);
        }
    }
    id
}

/// The last of the children `kids[0..j)` whose field satisfies `p`.
pub open spec fn last_kid(kids: Seq<(u16, usize)>, j: int, p: spec_fn(u16) -> bool) -> Option<usize>
    decreases j,
{
    if j <= 0 {
        None
    } else if p(kids[j - 1].0) {
        Some(kids[j - 1].1)
    } else {
        last_kid(kids, j - 1, p)
    }
}

/// The `left`, `operator` and `right` children of a binary operation among
/// `kids[0..j)`: the last child of each field.
pub open spec fn binary_kids(ctx: &Ctx, kids: Seq<(u16, usize)>, j: int) -> (Option<usize>, Option<usize>, Option<usize>) {
    let f = ctx.fields;
    (
        last_kid(kids, j, |x: u16| x != 0 && x == f.left),
        last_kid(kids, j, |x: u16| x != 0 && x != f.left && x == f.operator),
        last_kid(kids, j, |x: u16| x != 0 && x != f.left && x != f.operator && x == f.right),
    )
}

/// At the top level every binary operator but the interval `..` has a blank on
/// each side; inside a bracket, and for `..`, the operation is tight.
pub proof fn lemma_binary_operator_spacing(
    ctx: &Ctx,
    built: Seq<NodeId>,
    b: DocBuilder,
    l: usize,
    o: usize,
    r: usize,
    depth: usize,
)
    ensures
        ({
            let ll = doc_layout(b, built[l as int] as int);
            let lo = doc_layout(b, built[o as int] as int);
            let lr = doc_layout(b, built[r as int] as int);
            let dots = node_sliceable(ctx, o as int) && node_chars(ctx, o as int) == ".."@;
            &&& depth == 0 && !dots ==> binary_layout(ctx, built, b, l, o, r, depth) == ll + seq![Piece::Blank] + lo
                + seq![Piece::Blank] + lr
            &&& depth > 0 || dots ==> binary_layout(ctx, built, b, l, o, r, depth) == ll + lo + lr
        }),
{
    let ll = doc_layout(b, built[l as int] as int);
    let lo = doc_layout(b, built[o as int] as int);
    let lr = doc_layout(b, built[r as int] as int);
    assert(ll + Seq::<Piece>::empty() + lo + Seq::<Piece>::empty() + lr =~= ll + lo + lr);
}

/// A binary operation `l o r` laid out at bracket depth `depth`: a blank on
/// each side of the operator at the top level unless it is the interval `..`,
/// each child as its Doc from `built` in `b`.
pub open spec fn binary_layout(ctx: &Ctx, built: Seq<NodeId>, b: DocBuilder, l: usize, o: usize, r: usize, depth: usize) -> Seq<Piece> {
    let interval = node_sliceable(ctx, o as int) && node_chars(ctx, o as int) == ".."@;
    let gap = if depth == 0 && !interval {
        seq![Piece::Blank]
    } else {
        Seq::empty()
    };
    doc_layout(b, built[l as int] as int) + gap + doc_layout(b, built[o as int] as int) + gap + doc_layout(
        b,
        built[r as int] as int,
    )
}

/// A binary term operation `left OP right`, FLAT: spaced at the top level
/// (`X = Y + Z`), tight inside any bracket (`f(X, Y+Z)`), the interval `..`
/// always tight. Not the expected shape: the verbatim span.
pub fn lower_binary_operation(
    ctx: &Ctx,
    i: usize,
    bracket_depth: usize,
    built: &Vec<NodeId>,
    b: &mut DocBuilder,
) -> (id: NodeId)
    requires
        env_ok(ctx, built@, *old(b)),
        i < ctx.cst.nodes@.len(),
    ensures
        lowered(ctx, built@, *old(b), *final(b), id),
        ({
            let kids = code_kids(ctx.cst.nodes@, ctx.kinds, i as int, ctx.cst.nodes@[i as int].count as int);
            let (l, o, r) = binary_kids(ctx, kids, kids.len() as int);
            l is Some && o is Some && r is Some && !final(b).full_spec() ==> doc_text(*final(b), id as int)
                == child_text(ctx, *old(b), built@[l->0 as int], l->0 as int) + child_text(
                ctx,
                *old(b),
                built@[o->0 as int],
                o->0 as int,
            ) + child_text(ctx, *old(b), built@[r->0 as int], r->0 as int)
        }),
        ({
            let kids = code_kids(ctx.cst.nodes@, ctx.kinds, i as int, ctx.cst.nodes@[i as int].count as int);
            let (l, o, r) = binary_kids(ctx, kids, kids.len() as int);
            l is Some && o is Some && r is Some && !final(b).full_spec() && uncommented(ctx, l->0 as int) && uncommented(
                ctx,
                o->0 as int,
            ) && uncommented(ctx, r->0 as int) ==> doc_layout(*final(b), id as int) == binary_layout(
                ctx,
                built@,
                *old(b),
                l->0,
                o->0,
                r->0,
                bracket_depth,
            )
        }),
        ({
            let kids = code_kids(ctx.cst.nodes@, ctx.kinds, i as int, ctx.cst.nodes@[i as int].count as int);
            let (l, o, r) = binary_kids(ctx, kids, kids.len() as int);
            l is Some && o is Some && r is Some && !final(b).full_spec() && uncommented(ctx, l->0 as int) && uncommented(
                ctx,
                o->0 as int,
            ) && uncommented(ctx, r->0 as int) ==> {
                let ll = doc_layout(*old(b), built@[l->0 as int] as int);
                let lo = doc_layout(*old(b), built@[o->0 as int] as int);
                let lr = doc_layout(*old(b), built@[r->0 as int] as int);
                let dots = node_sliceable(ctx, o->0 as int) && node_chars(ctx, o->0 as int) == ".."@;
                &&& bracket_depth == 0 && !dots ==> doc_layout(*final(b), id as int) == ll + seq![Piece::Blank] + lo
                    + seq![Piece::Blank] + lr
                &&& bracket_depth > 0 || dots ==> doc_layout(*final(b), id as int) == ll + lo + lr
            }
        }),
{
    let f = ctx.fields;
    let kids = walk_code_children(ctx, i);
    let mut left: Option<usize> = None;
    let mut op: Option<usize> = None;
    let mut right: Option<usize> = None;
    let mut j: usize = 0;
    while j < kids.len()
        invariant
            ctx.ok(),
            j <= kids@.len(),
            kids_ok(ctx, i, kids@),
            left matches Some(x) ==> x < ctx.cst.nodes@.len(),
            op matches Some(x) ==> x < ctx.cst.nodes@.len(),
            right matches Some(x) ==> x < ctx.cst.nodes@.len(),
            f == ctx.fields,
            (left, op, right) == binary_kids(ctx, kids@, j as int),
        decreases kids@.len() - j,
    {
        let (field, c) = kids[j];
        if field != 0 && field == f.left {
            left = Some(c);
        } else if field != 0 && field == f.operator {
            op = Some(c);
        } else if field != 0 && field == f.right {
            right = Some(c);
        }
        j = j + 1;
    }
    let (l, o, r) = match (left, op, right) {
        (Some(l), Some(o), Some(r)) => (l, o, r),
        _ => {
            return token(ctx, i, b);
        },
    };
    let ghost b0 = *b;
    let interval = match node_text(ctx, o) {
        Some(t) => str_eq(t, ".."),
        None => false,
    };
    let sep = if interval {
        Sep::Tight
    } else {
        term_operator_spacing(bracket_depth)
    };
    let l_doc = child_doc(ctx, built, l, b);
    let ghost b1 = *b;
    let o_doc = child_doc(ctx, built, o, b);
    let ghost b2 = *b;
    let r_doc = child_doc(ctx, built, r, b);
    let ghost b3 = *b;
    proof {
        assert(doc_text(b3, l_doc as int) == doc_text(b1, l_doc as int));
        assert(doc_text(b3, o_doc as int) == doc_text(b2, o_doc as int));
        assert(doc_layout(b3, l_doc as int) == doc_layout(b1, l_doc as int));
        assert(doc_layout(b3, o_doc as int) == doc_layout(b2, o_doc as int));
        assert(doc_text(b1, built@[o as int] as int) == doc_text(b0, built@[o as int] as int));
        assert(doc_text(b2, built@[r as int] as int) == doc_text(b0, built@[r as int] as int));
        assert(doc_layout(b1, built@[o as int] as int) == doc_layout(b0, built@[o as int] as int));
        assert(doc_layout(b2, built@[r as int] as int) == doc_layout(b0, built@[r as int] as int));
    }
    proof {
        lemma_binary_operator_spacing(ctx, built@, b0, l, o, r, bracket_depth);
    }
    if sep == Sep::Tight {
        proof {
            lemma_items_text_3(b3, l_doc, o_doc, r_doc);
            lemma_items_layout_3(b3, l_doc, o_doc, r_doc);
            assert(doc_layout(b3, l_doc as int) + Seq::<Piece>::empty() + doc_layout(b3, o_doc as int)
                + Seq::<Piece>::empty() + doc_layout(b3, r_doc as int) =~= doc_layout(b3, l_doc as int) + doc_layout(
                b3,
                o_doc as int,
            ) + doc_layout(b3, r_doc as int));
        }
        e_seq(ctx, b, &[l_doc, o_doc, r_doc])
    } else {
        let before = e_space(ctx, b);
        let ghost b4 = *b;
        let after = e_space(ctx, b);
        let ghost b5 = *b;
        proof {
            lemma_items_text_5(b5, l_doc, before, o_doc, after, r_doc);
            lemma_items_layout_four(b5, l_doc, before, o_doc, after);
            lemma_items_layout_push(b5, seq![l_doc, before, o_doc, after], r_doc);
            assert(seq![l_doc, before, o_doc, after].push(r_doc) =~= seq![l_doc, before, o_doc, after, r_doc]);
            assert(doc_layout(b5, before as int) == doc_layout(b4, before as int));
            assert(doc_text(b5, before as int) == doc_text(b4, before as int));
        }
        e_seq(ctx, b, &[l_doc, before, o_doc, after, r_doc])
    }
}

/// The `operator` and operand (`right`) children of a unary operation among
/// `kids[0..j)`: the last child of each field.
pub open spec fn unary_kids(ctx: &Ctx, kids: Seq<(u16, usize)>, j: int) -> (Option<usize>, Option<usize>) {
    let f = ctx.fields;
    (
        last_kid(kids, j, |x: u16| x != 0 && x == f.operator),
        last_kid(kids, j, |x: u16| x != 0 && x != f.operator && x == f.right),
    )
}

/// A unary term operation `OP operand` (`-X` / `~X`): always tight, FLAT.
pub fn lower_unary_operation(ctx: &Ctx, i: usize, built: &Vec<NodeId>, b: &mut DocBuilder) -> (id: NodeId)
    requires
        env_ok(ctx, built@, *old(b)),
        i < ctx.cst.nodes@.len(),
    ensures
        lowered(ctx, built@, *old(b), *final(b), id),
        ({
            let kids = code_kids(ctx.cst.nodes@, ctx.kinds, i as int, ctx.cst.nodes@[i as int].count as int);
            let (o, t) = unary_kids(ctx, kids, kids.len() as int);
            o is Some && t is Some && !final(b).full_spec() ==> doc_text(*final(b), id as int) == child_text(
                ctx,
                *old(b),
                built@[o->0 as int],
                o->0 as int,
            ) + child_text(ctx, *old(b), built@[t->0 as int], t->0 as int)
        }),
        ({
            let kids = code_kids(ctx.cst.nodes@, ctx.kinds, i as int, ctx.cst.nodes@[i as int].count as int);
            let (o, t) = unary_kids(ctx, kids, kids.len() as int);
            o is Some && t is Some && !final(b).full_spec() && uncommented(ctx, o->0 as int) && uncommented(
                ctx,
                t->0 as int,
            ) ==> doc_layout(*final(b), id as int) == doc_layout(*old(b), built@[o->0 as int] as int) + doc_layout(
                *old(b),
                built@[t->0 as int] as int,
            )
        }),
{
    let f = ctx.fields;
    let kids = walk_code_children(ctx, i);
    let mut op: Option<usize> = None;
    let mut operand: Option<usize> = None;
    let mut j: usize = 0;
    while j < kids.len()
        invariant
            ctx.ok(),
            j <= kids@.len(),
            kids_ok(ctx, i, kids@),
            op matches Some(x) ==> x < ctx.cst.nodes@.len(),
            operand matches Some(x) ==> x < ctx.cst.nodes@.len(),
            f == ctx.fields,
            (op, operand) == unary_kids(ctx, kids@, j as int),
        decreases kids@.len() - j,
    {
        let (field, c) = kids[j];
        if field != 0 && field == f.operator {
            op = Some(c);
        } else if field != 0 && field == f.right {
            operand = Some(c);
        }
        j = j + 1;
    }
    let (o, t) = match (op, operand) {
        (Some(o), Some(t)) => (o, t),
        _ => {
            return token(ctx, i, b);
        },
    };
    let ghost b0 = *b;
    let o_doc = child_doc(ctx, built, o, b);
    let ghost b1 = *b;
    let t_doc = child_doc(ctx, built, t, b);
    let ghost b2 = *b;
    proof {
        assert(doc_text(b2, o_doc as int) == doc_text(b1, o_doc as int));
        assert(doc_layout(b2, o_doc as int) == doc_layout(b1, o_doc as int));
        assert(doc_text(b1, built@[t as int] as int) == doc_text(b0, built@[t as int] as int));
        assert(doc_layout(b1, built@[t as int] as int) == doc_layout(b0, built@[t as int] as int));
        lemma_items_text_2(b2, o_doc, t_doc);
        lemma_items_layout_2(b2, o_doc, t_doc);
    }
    e_seq(ctx, b, &[o_doc, t_doc])
}

/// `#script ( lang ) code #end .`: the keyword spaced from `(`, everything else
/// abutting; the `code` body passes byte-for-byte through the embedded hook.
pub fn lower_script(ctx: &Ctx, i: usize, built: &Vec<NodeId>, b: &mut DocBuilder) -> (id: NodeId)
    requires
        env_ok(ctx, built@, *old(b)),
        i < ctx.cst.nodes@.len(),
    ensures
        lowered(ctx, built@, *old(b), *final(b), id),
        settled(*old(b), *final(b)),
        !final(b).full_spec() ==> doc_text(*final(b), id as int) == kids_text(
            ctx,
            built@,
            *old(b),
            i as int,
            ctx.cst.nodes@[i as int].count as int,
        ),
        ({
            let kids = code_kids(ctx.cst.nodes@, ctx.kinds, i as int, ctx.cst.nodes@[i as int].count as int);
            !final(b).full_spec() && all_uncommented(ctx, kids) ==> doc_layout(*final(b), id as int)
                == keyword_block_layout(built@, *old(b), kids, kids.len() as int)
        }),
{
    let k = ctx.kinds;
    let f = ctx.fields;
    let kids = walk_code_children(ctx, i);
    let mut lang: &str = "";
    let mut code: &str = "";
    let mut items: Vec<NodeId> = Vec::new();
    let ghost b0 = *b;
    let mut j: usize = 0;
    assert(items_text(*b, items@) =~= Seq::<Span>::empty());
    assert(items_layout(*b, items@) =~= Seq::<Piece>::empty());
    assert(kids@.subrange(0, 0) =~= Seq::<(u16, usize)>::empty());
    while j < kids.len()
        invariant
            env_ok(ctx, built@, *b),
            env_ok(ctx, built@, b0),
            b0 == *old(b),
            grows(*old(b), *b),
            settled(*old(b), *b),
            i < ctx.cst.nodes@.len(),
            j <= kids@.len(),
            kids_ok(ctx, i, kids@),
            ids_ok(items@, *b),
            !b.full_spec() ==> items_text(*b, items@) == code_text(ctx, built@, b0, kids@.subrange(0, j as int)),
            k == ctx.kinds,
            f == ctx.fields,
            !b.full_spec() && all_uncommented(ctx, kids@) ==> items_layout(*b, items@) == keyword_block_layout(
                built@,
                b0,
                kids@,
                j as int,
            ),
        decreases kids@.len() - j,
    {
        let ghost bs = *b;
        let ghost i0 = items@;
        let (field, c) = kids[j];
        assert(built@[c as int] < b0.nodes_spec().len());
        if field != 0 && field == f.language {
            if let Some(t) = node_text(ctx, c) {
                lang = t;
            }
        } else if ctx.cst.nodes[c].kind == k.code {
            if let Some(t) = node_text(ctx, c) {
                code = t;
            }
        }
        let d = child_doc(ctx, built, c, b);
        let ghost bd = *b;
        items.push(d);
        if j == 0 {
            let sp = e_space(ctx, b);
            items.push(sp);
            proof {
                if !b.full_spec() {
                    lemma_items_text_push(*b, i0, d);
                    lemma_items_text_push(*b, i0.push(d), sp);
                    assert(items@ == i0.push(d).push(sp));
                    assert(doc_text(*b, d as int) == doc_text(bd, d as int));
                    lemma_items_layout_push(*b, i0, d);
                    lemma_items_layout_push(*b, i0.push(d), sp);
                    assert(doc_layout(*b, d as int) == doc_layout(bd, d as int));
                }
            }
        } else {
            proof {
                if !b.full_spec() {
                    lemma_items_text_push(*b, i0, d);
                    lemma_items_layout_push(*b, i0, d);
                }
            }
        }
        proof {
            if !b.full_spec() {
                lemma_items_stable(bs, *b, i0);
                assert(doc_text(bs, built@[c as int] as int) == doc_text(b0, built@[c as int] as int));
                let s1 = kids@.subrange(0, j + 1);
                assert(s1.drop_last() =~= kids@.subrange(0, j as int));
                assert(s1.last() == kids@[j as int]);
                assert(items_text(*b, items@) =~= items_text(bs, i0) + child_text(
                    ctx,
                    b0,
                    built@[c as int],
                    c as int,
                ));
                assert(doc_layout(bs, built@[c as int] as int) == doc_layout(b0, built@[c as int] as int));
                if all_uncommented(ctx, kids@) {
                    assert(uncommented(ctx, kids@[j as int].1 as int));
                    assert(kids@[j as int].1 == c);
                    assert(items_layout(*b, items@) =~= keyword_block_layout(built@, b0, kids@, j + 1));
                }
            }
        }
        j = j + 1;
    }
    let hooked = format_embedded(lang, code);
    assert(hooked@ == code@);
    let id = e_seq(ctx, b, items.as_slice());
    proof {
        if !b.full_spec() {
            assert(kids@.subrange(0, j as int) =~= kids@);
            lemma_code_kids_text(ctx, built@, b0, i as int, ctx.cst.nodes@[i as int].count as int);
        }
    }
    id
}


/// The kinds that have a construct rule (every other kind is emitted verbatim).
pub open spec fn handled_kind(k: &KindIds, id: u16) -> bool {
    id == k.source_file
        || id == k.rule
        || id == k.integrity_constraint
        || id == k.body
        || id == k.body_literal
        || id == k.conditional_literal
        || id == k.condition
        || id == k.disjunction
        || id == k.set_aggregate
        || id == k.head_aggregate
        || id == k.body_aggregate
        || id == k.theory_atom
        || id == k.minimize
        || id == k.maximize
        || id == k.set_aggregate_elements
        || id == k.head_aggregate_elements
        || id == k.body_aggregate_elements
        || id == k.theory_elements
        || id == k.optimize_elements
        || id == k.set_aggregate_element
        || id == k.body_aggregate_element
        || id == k.head_aggregate_element
        || id == k.optimize_element
        || id == k.comparison
        || id == k.lower
        || id == k.upper
        || id == k.literal
        || id == k.symbolic_atom
        || id == k.function
        || id == k.external_function
        || id == k.terms
        || id == k.tuple
        || id == k.binary_operation
        || id == k.unary_operation
        || id == k.abs
        || id == k.theory_terms
        || id == k.theory_element
        || id == k.theory_unparsed_term
        || id == k.theory_operators
        || id == k.theory_function
        || id == k.theory_tuple
        || id == k.theory_list
        || id == k.theory_set
        || id == k.theory_atom_upper
        || id == k.theory
        || id == k.theory_term_definition
        || id == k.theory_operator_definition
        || id == k.theory_operator_definitions
        || id == k.theory_atom_definition
        || id == k.show
        || id == k.show_signature
        || id == k.show_term
        || id == k.defined
        || id == k.project_signature
        || id == k.project_atom
        || id == k.const_
        || id == k.inclusion
        || id == k.external
        || id == k.signature
        || id == k.program
        || id == k.heuristic
        || id == k.parameters
        || id == k.weight
        || id == k.edge
        || id == k.edge_pair
        || id == k.weak_constraint
        || id == k.script
}

/// Does a construct rule exist for node `i`'s kind? A predicate on the kind
/// alone, consulted on every node to decide whether to descend.
pub fn handles(ctx: &Ctx, i: usize) -> (r: bool)
    requires
        ctx.ok(),
        i < ctx.cst.nodes@.len(),
    ensures
        r == handled_kind(ctx.kinds, ctx.cst.nodes@[i as int].kind),
{
    let k = ctx.kinds;
    let id = ctx.cst.nodes[i].kind;
    id == k.source_file
        || id == k.rule
        || id == k.integrity_constraint
        || id == k.body
        || id == k.body_literal
        || id == k.conditional_literal
        || id == k.condition
        || id == k.disjunction
        || id == k.set_aggregate
        || id == k.head_aggregate
        || id == k.body_aggregate
        || id == k.theory_atom
        || id == k.minimize
        || id == k.maximize
        || id == k.set_aggregate_elements
        || id == k.head_aggregate_elements
        || id == k.body_aggregate_elements
        || id == k.theory_elements
        || id == k.optimize_elements
        || id == k.set_aggregate_element
        || id == k.body_aggregate_element
        || id == k.head_aggregate_element
        || id == k.optimize_element
        || id == k.comparison
        || id == k.lower
        || id == k.upper
        || id == k.literal
        || id == k.symbolic_atom
        || id == k.function
        || id == k.external_function
        || id == k.terms
        || id == k.tuple
        || id == k.binary_operation
        || id == k.unary_operation
        || id == k.abs
        || id == k.theory_terms
        || id == k.theory_element
        || id == k.theory_unparsed_term
        || id == k.theory_operators
        || id == k.theory_function
        || id == k.theory_tuple
        || id == k.theory_list
        || id == k.theory_set
        || id == k.theory_atom_upper
        || id == k.theory
        || id == k.theory_term_definition
        || id == k.theory_operator_definition
        || id == k.theory_operator_definitions
        || id == k.theory_atom_definition
        || id == k.show
        || id == k.show_signature
        || id == k.show_term
        || id == k.defined
        || id == k.project_signature
        || id == k.project_atom
        || id == k.const_
        || id == k.inclusion
        || id == k.external
        || id == k.signature
        || id == k.program
        || id == k.heuristic
        || id == k.parameters
        || id == k.weight
        || id == k.edge
        || id == k.edge_pair
        || id == k.weak_constraint
        || id == k.script
}

/// The conditional-literal `… : condition` family.
pub fn is_conditional_family(k: &KindIds, id: u16) -> (r: bool)
    ensures
        r == (id == k.conditional_literal || id == k.set_aggregate_element || id == k.body_aggregate_element
            || id == k.head_aggregate_element || id == k.optimize_element || id == k.theory_element),
{
    id == k.conditional_literal || id == k.set_aggregate_element || id == k.body_aggregate_element
        || id == k.head_aggregate_element || id == k.optimize_element || id == k.theory_element
}

/// Push one `source_file` item, preceded — when it is not the first — by a
/// `hardline`, plus a `blank_line` when one author blank is kept.
pub fn push_item(ctx: &Ctx, b: &mut DocBuilder, items: &mut Vec<NodeId>, doc: NodeId, blank: bool)
    requires
        doc_ok(*old(b), ctx.bytes@),
        ids_ok(old(items)@, *old(b)),
        doc < old(b).nodes_spec().len(),
    ensures
        doc_ok(*final(b), ctx.bytes@),
        grows(*old(b), *final(b)),
        ids_ok(final(items)@, *final(b)),
        final(items)@.len() > 0,
        final(items)@.last() == doc,
        settled(*old(b), *final(b)),
        !final(b).full_spec() ==> items_text(*final(b), final(items)@) == items_text(*old(b), old(items)@) + doc_text(
            *old(b),
            doc as int,
        ),
        !final(b).full_spec() ==> items_layout(*final(b), final(items)@) == items_layout(*old(b), old(items)@)
            + doc_layout(*old(b), doc as int),
{
    let ghost b0 = *b;
    let ghost i0 = items@;
    if items.len() > 0 {
        let nl = e_hardline(ctx, b);
        items.push(nl);
        proof {
            if !b.full_spec() {
                lemma_items_stable(b0, *b, i0);
                lemma_items_text_push(*b, i0, nl);
                lemma_items_layout_push(*b, i0, nl);
            }
        }
        if blank {
            let ghost b1 = *b;
            let ghost i1 = items@;
            let bl = e_blank_line(ctx, b);
            items.push(bl);
            proof {
                if !b.full_spec() {
                    lemma_items_stable(b1, *b, i1);
                    lemma_items_text_push(*b, i1, bl);
                    lemma_items_layout_push(*b, i1, bl);
                }
            }
        }
    }
    let ghost b2 = *b;
    let ghost i2 = items@;
    items.push(doc);
    proof {
        if !b.full_spec() {
            lemma_items_text_push(*b, i2, doc);
            lemma_items_layout_push(*b, i2, doc);
            assert(doc_text(b2, doc as int) == doc_text(b0, doc as int));
            assert(doc_layout(b2, doc as int) == doc_layout(b0, doc as int));
            assert(items_text(b2, i2) =~= items_text(b0, i0));
            assert(items_layout(b2, i2) =~= items_layout(b0, i0));
        }
    }
}

/// The index of the first of `ts[q..]` spanning exactly `[start, end)`, if any.
pub open spec fn trivia_match(ts: Seq<Trivia>, start: usize, end: usize, q: int) -> Option<int>
    decreases ts.len() - q,
{
    if q < 0 || q >= ts.len() {
        None
    } else if ts[q].start == start && ts[q].end == end {
        Some(q)
    } else {
        trivia_match(ts, start, end, q + 1)
    }
}

/// A source file's child `c` as it is emitted: a comment child as the root's
/// dangling comment spanning it (nothing when none does), any other child as
/// its Doc from `built` in `b` with its anchored comments.
pub open spec fn source_item_text(ctx: &Ctx, built: Seq<NodeId>, b: DocBuilder, i: int, c: int) -> Seq<Span> {
    let n = ctx.cst.nodes@[c];
    if n.kind == ctx.kinds.line_comment || n.kind == ctx.kinds.block_comment {
        let ts = ctx.at.by_anchor@[i].dangling@;
        match trivia_match(ts, n.start, n.end, 0) {
            Some(x) => trivia_text(ctx.src, ts[x]),
            None => Seq::empty(),
        }
    } else {
        child_text(ctx, b, built[c] as NodeId, c)
    }
}

/// The text of a source file's first `j` children as they are emitted.
pub open spec fn source_text(ctx: &Ctx, built: Seq<NodeId>, b: DocBuilder, i: int, j: int) -> Seq<Span>
    decreases j,
{
    if j <= 0 {
        Seq::empty()
    } else {
        source_text(ctx, built, b, i, j - 1) + source_item_text(ctx, built, b, i, child_of(ctx.cst.nodes@, i, j - 1))
    }
}

/// The layout of a source file's child `c` as it is emitted (see
/// [`source_item_text`]): a matched dangling comment as its text, any other
/// child as its Doc from `built` in `b`.
pub open spec fn source_item_layout(ctx: &Ctx, built: Seq<NodeId>, b: DocBuilder, i: int, c: int) -> Seq<Piece> {
    let n = ctx.cst.nodes@[c];
    if n.kind == ctx.kinds.line_comment || n.kind == ctx.kinds.block_comment {
        let ts = ctx.at.by_anchor@[i].dangling@;
        match trivia_match(ts, n.start, n.end, 0) {
            Some(x) => trivia_text(ctx.src, ts[x]).map_values(|sp: Span| Piece::Text(sp)),
            None => Seq::empty(),
        }
    } else {
        doc_layout(b, built[c] as int)
    }
}

/// The layout of a source file's first `j` children as they are emitted.
pub open spec fn source_layout(ctx: &Ctx, built: Seq<NodeId>, b: DocBuilder, i: int, j: int) -> Seq<Piece>
    decreases j,
{
    if j <= 0 {
        Seq::empty()
    } else {
        source_layout(ctx, built, b, i, j - 1) + source_item_layout(ctx, built, b, i, child_of(ctx.cst.nodes@, i, j - 1))
    }
}

/// The translation unit: statements on consecutive lines with blank-line
/// normalization — one author blank kept between two items when the source had
/// one or more blank lines in their gap (also across a re-injected comment), and
/// one blank forced before a `#program` section. The root's dangling comments
/// are emitted standalone at their source positions.
pub fn lower_source_file(ctx: &Ctx, i: usize, built: &Vec<NodeId>, b: &mut DocBuilder) -> (id: NodeId)
    requires
        env_ok(ctx, built@, *old(b)),
        i < ctx.cst.nodes@.len(),
    ensures
        lowered(ctx, built@, *old(b), *final(b), id),
        settled(*old(b), *final(b)),
        !final(b).full_spec() ==> doc_text(*final(b), id as int) == source_text(
            ctx,
            built@,
            *old(b),
            i as int,
            ctx.cst.nodes@[i as int].count as int,
        ),
        !final(b).full_spec() && kids_uncommented(ctx, i as int) ==> doc_layout(*final(b), id as int) == source_layout(
            ctx,
            built@,
            *old(b),
            i as int,
            ctx.cst.nodes@[i as int].count as int,
        ),
{
    let k = ctx.kinds;
    let dangling = &ctx.at.for_node(i).dangling;
    let kids = ctx.cst.walk_children(i);
    let mut items: Vec<NodeId> = Vec::new();
    let mut prev_end_row: Option<usize> = None;
    let mut carry_blank = false;
    let mut j: usize = 0;
    let ghost b0 = *b;
    assert(items_text(*b, items@) =~= Seq::<Span>::empty());
    assert(items_layout(*b, items@) =~= Seq::<Piece>::empty());
    proof {
        crate::cst::lemma_children_in_bounds(ctx.cst.nodes@, i as int);
    }
    while j < kids.len()
        invariant
            env_ok(ctx, built@, *b),
            env_ok(ctx, built@, b0),
            b0 == *old(b),
            grows(*old(b), *b),
            settled(*old(b), *b),
            i < ctx.cst.nodes@.len(),
            j <= kids@.len(),
            kids_ok(ctx, i, kids@),
            ids_ok(items@, *b),
            k == ctx.kinds,
            *dangling == ctx.at.by_anchor@[i as int].dangling,
            kids@.len() == ctx.cst.nodes@[i as int].count,
            ctx.cst.nodes@[i as int].first + ctx.cst.nodes@[i as int].count <= ctx.cst.nodes@.len(),
            forall|q: int|
                0 <= q < kids@.len() ==> #[trigger] kids@[q] == (
                    ctx.cst.nodes@[child_of(ctx.cst.nodes@, i as int, q)].field,
                    child_of(ctx.cst.nodes@, i as int, q) as usize,
                ),
            !b.full_spec() ==> items_text(*b, items@) == source_text(ctx, built@, b0, i as int, j as int),
            !b.full_spec() && kids_uncommented(ctx, i as int) ==> items_layout(*b, items@) == source_layout(
                ctx,
                built@,
                b0,
                i as int,
                j as int,
            ),
        decreases kids@.len() - j,
    {
        let ghost bs = *b;
        let ghost i0 = items@;
        let c = kids[j].1;
        assert(c == child_of(ctx.cst.nodes@, i as int, j as int));
        assert(child_of(ctx.cst.nodes@, i as int, (j + 1) - 1) == c);
        let child = ctx.cst.nodes[c];
        let gap_blank = match prev_end_row {
            Some(p) => child.start_row >= p && child.start_row - p >= 2,
            None => false,
        };
        prev_end_row = Some(child.end_row);
        if is_comment(k, child) {
            let mut found: Option<usize> = None;
            let mut q: usize = 0;
            while q < dangling.len() && found.is_none()
                invariant
                    q <= dangling@.len(),
                    found matches Some(x) ==> x < dangling@.len(),
                    found is None ==> trivia_match(dangling@, child.start, child.end, 0) == trivia_match(
                        dangling@,
                        child.start,
                        child.end,
                        q as int,
                    ),
                    found matches Some(x) ==> trivia_match(dangling@, child.start, child.end, 0) == Some(x as int),
                decreases dangling@.len() - q,
            {
                if dangling[q].start == child.start && dangling[q].end == child.end {
                    found = Some(q);
                }
                q = q + 1;
            }
            proof {
                if found is None {
                    assert(trivia_match(dangling@, child.start, child.end, q as int) is None);
                }
            }
            match found {
                Some(x) => {
                    let ghost b1 = *b;
                    let d = comment_doc(ctx, dangling[x], b);
                    let ghost b2 = *b;
                    push_item(ctx, b, &mut items, d, gap_blank || carry_blank);
                    proof {
                        if !b.full_spec() {
                            lemma_items_stable(bs, b2, i0);
                        }
                    }
                    carry_blank = false;
                },
                None => {
                    carry_blank = carry_blank || gap_blank;
                    assert(source_item_text(ctx, built@, b0, i as int, c as int) =~= Seq::<Span>::empty());
                    assert(source_item_layout(ctx, built@, b0, i as int, c as int) =~= Seq::<Piece>::empty());
                },
            }
        } else {
            assert(built@[c as int] < b0.nodes_spec().len());
            let d = child_doc(ctx, built, c, b);
            let ghost b2 = *b;
            let is_program = child.kind == k.program;
            push_item(ctx, b, &mut items, d, gap_blank || carry_blank || is_program);
            proof {
                if !b.full_spec() {
                    lemma_items_stable(bs, b2, i0);
                    assert(doc_text(bs, built@[c as int] as int) == doc_text(b0, built@[c as int] as int));
                    assert(doc_layout(bs, built@[c as int] as int) == doc_layout(b0, built@[c as int] as int));
                    if kids_uncommented(ctx, i as int) {
                        assert(ctx.at.by_anchor@[child_of(ctx.cst.nodes@, i as int, j as int)].leading@.len() == 0);
                    }
                }
            }
            carry_blank = false;
        }
        proof {
            if !b.full_spec() {
                assert(items_text(*b, items@) =~= source_text(ctx, built@, b0, i as int, j + 1));
                if kids_uncommented(ctx, i as int) {
                    assert(items_layout(*b, items@) =~= source_layout(ctx, built@, b0, i as int, j + 1));
                }
            }
        }
        j = j + 1;
    }
    assert(kids@.len() == j);
    e_seq(ctx, b, items.as_slice())
}

/// The construct family [`build`] lowers a kind as, in its dispatch order.
pub enum Family {
    SourceFile,
    Statement,
    Aggregate,
    Separated,
    SignedAtom,
    Conditional,
    Comparison,
    Guard,
    Application,
    Binary,
    Unary,
    Abs,
    TheoryUnparsed,
    TheoryOperators,
    TheoryAtomUpper,
    TheoryDirective,
    TheoryTermDefinition,
    TheoryOperatorDefinition,
    TheoryAtomDefinition,
    Directive,
    Signature,
    Program,
    Weight,
    Edge,
    EdgePair,
    Script,
    Unhandled,
}

/// The family of the kind `id`: the first rule of [`build`]'s dispatch it meets.
pub open spec fn family(k: &KindIds, id: u16) -> Family {
    if id == k.source_file {
        Family::SourceFile
    } else if id == k.rule || id == k.integrity_constraint || id == k.weak_constraint {
        Family::Statement
    } else if id == k.set_aggregate || id == k.head_aggregate || id == k.body_aggregate || id == k.theory_atom || id
        == k.minimize || id == k.maximize {
        Family::Aggregate
    } else if id == k.body || id == k.disjunction || id == k.condition || id == k.set_aggregate_elements || id
        == k.head_aggregate_elements || id == k.body_aggregate_elements || id == k.theory_elements || id
        == k.optimize_elements || id == k.terms || id == k.theory_terms || id == k.theory_operator_definitions || id
        == k.parameters {
        Family::Separated
    } else if id == k.body_literal || id == k.literal {
        Family::SignedAtom
    } else if id == k.conditional_literal || id == k.set_aggregate_element || id == k.body_aggregate_element || id
        == k.head_aggregate_element || id == k.optimize_element || id == k.theory_element {
        Family::Conditional
    } else if id == k.comparison {
        Family::Comparison
    } else if id == k.lower || id == k.upper {
        Family::Guard
    } else if id == k.symbolic_atom || id == k.function || id == k.external_function || id == k.tuple || id
        == k.theory_function || id == k.theory_tuple || id == k.theory_list || id == k.theory_set {
        Family::Application
    } else if id == k.binary_operation {
        Family::Binary
    } else if id == k.unary_operation {
        Family::Unary
    } else if id == k.abs {
        Family::Abs
    } else if id == k.theory_unparsed_term {
        Family::TheoryUnparsed
    } else if id == k.theory_operators {
        Family::TheoryOperators
    } else if id == k.theory_atom_upper {
        Family::TheoryAtomUpper
    } else if id == k.theory {
        Family::TheoryDirective
    } else if id == k.theory_term_definition {
        Family::TheoryTermDefinition
    } else if id == k.theory_operator_definition {
        Family::TheoryOperatorDefinition
    } else if id == k.theory_atom_definition {
        Family::TheoryAtomDefinition
    } else if id == k.show || id == k.show_signature || id == k.show_term || id == k.defined || id
        == k.project_signature || id == k.project_atom || id == k.const_ || id == k.inclusion || id == k.external
        || id == k.heuristic {
        Family::Directive
    } else if id == k.signature {
        Family::Signature
    } else if id == k.program {
        Family::Program
    } else if id == k.weight {
        Family::Weight
    } else if id == k.edge {
        Family::Edge
    } else if id == k.edge_pair {
        Family::EdgePair
    } else if id == k.script {
        Family::Script
    } else {
        Family::Unhandled
    }
}

/// The families whose lowering is proved to keep the text: a node of one has,
/// with no comment dangling from it, its children's text in source order.
pub open spec fn keeps_text(f: Family) -> bool {
    match f {
        Family::Statement | Family::Aggregate | Family::Separated | Family::Comparison | Family::Guard
        | Family::TheoryUnparsed | Family::TheoryOperators | Family::TheoryAtomUpper
        | Family::TheoryOperatorDefinition | Family::TheoryAtomDefinition | Family::Directive | Family::Signature
        | Family::Weight | Family::EdgePair | Family::SignedAtom | Family::Script | Family::Application | Family::Abs
        | Family::TheoryDirective | Family::TheoryTermDefinition | Family::Conditional | Family::Program
        | Family::Edge => true,
        _ => false,
    }
}

/// Build the Doc for a handled composite from its already-lowered children,
/// dispatching on its kind; `None` for an unhandled kind, or for a node (other
/// than the root) with an `ERROR` / `MISSING` / pool-edge child, which then
/// degrades to its verbatim source span.
pub fn build(ctx: &Ctx, i: usize, bracket_depth: usize, built: &Vec<NodeId>, b: &mut DocBuilder) -> (r: Option<
    NodeId,
>)
    requires
        env_ok(ctx, built@, *old(b)),
        i < ctx.cst.nodes@.len(),
        bracket_depth < usize::MAX,
    ensures
        env_ok(ctx, built@, *final(b)),
        grows(*old(b), *final(b)),
        r matches Some(id) ==> id < final(b).nodes_spec().len(),
        r is Some <==> ctx.cst.nodes@[i as int].kind == ctx.kinds.source_file || (!unformattable(ctx, i as int)
            && handled_kind(ctx.kinds, ctx.cst.nodes@[i as int].kind)),
        r is Some && !final(b).full_spec() && keeps_text(family(ctx.kinds, ctx.cst.nodes@[i as int].kind))
            && ctx.at.by_anchor@[i as int].dangling@.len() == 0 ==> doc_text(*final(b), r->0 as int) == kids_text(
            ctx,
            built@,
            *old(b),
            i as int,
            ctx.cst.nodes@[i as int].count as int,
        ),
        ({
            let kids = code_kids(ctx.cst.nodes@, ctx.kinds, i as int, ctx.cst.nodes@[i as int].count as int);
            r is Some && !final(b).full_spec() && family(ctx.kinds, ctx.cst.nodes@[i as int].kind) == Family::Directive
                && ctx.at.by_anchor@[i as int].dangling@.len() == 0 && keyword_spaced(ctx, kids) ==> lays_first(
                doc_layout(*final(b), r->0 as int),
                doc_layout(*old(b), built@[kids[0].1 as int] as int) + seq![Piece::Blank],
            )
        }),
        r is Some && !final(b).full_spec() && family(ctx.kinds, ctx.cst.nodes@[i as int].kind) == Family::Separated
            && ctx.at.by_anchor@[i as int].dangling@.len() == 0 && kids_uncommented(ctx, i as int) ==> doc_layout(
            *final(b),
            r->0 as int,
        ) == seq_layout(ctx, built@, *old(b), i as int, ctx.cst.nodes@[i as int].count as int),
        ({
            let kids = code_kids(ctx.cst.nodes@, ctx.kinds, i as int, ctx.cst.nodes@[i as int].count as int);
            let m = neck_at(ctx, kids, 0);
            r is Some && !final(b).full_spec() && family(ctx.kinds, ctx.cst.nodes@[i as int].kind) == Family::Statement
                && ctx.at.by_anchor@[i as int].dangling@.len() == 0 && plain_head(ctx, kids) ==> lays_first(
                doc_layout(*final(b), r->0 as int),
                kids_layout(built@, *old(b), kids, m) + seq![Piece::Blank] + doc_layout(
                    *old(b),
                    built@[kids[m].1 as int] as int,
                ),
            )
        }),
        ({
            let kids = code_kids(ctx.cst.nodes@, ctx.kinds, i as int, ctx.cst.nodes@[i as int].count as int);
            r is Some && !final(b).full_spec() && all_uncommented(ctx, kids) && family(
                ctx.kinds,
                ctx.cst.nodes@[i as int].kind,
            ) == Family::SignedAtom ==> doc_layout(*final(b), r->0 as int) == signed_layout(
                ctx,
                built@,
                *old(b),
                kids,
                kids.len() as int,
            )
        }),
        ({
            let kids = code_kids(ctx.cst.nodes@, ctx.kinds, i as int, ctx.cst.nodes@[i as int].count as int);
            r is Some && !final(b).full_spec() && all_uncommented(ctx, kids) && family(
                ctx.kinds,
                ctx.cst.nodes@[i as int].kind,
            ) == Family::EdgePair ==> doc_layout(*final(b), r->0 as int) == comma_spaced_layout(
                ctx,
                built@,
                *old(b),
                kids,
                kids.len() as int,
            )
        }),
        ({
            let kids = code_kids(ctx.cst.nodes@, ctx.kinds, i as int, ctx.cst.nodes@[i as int].count as int);
            r is Some && !final(b).full_spec() && all_uncommented(ctx, kids) && family(
                ctx.kinds,
                ctx.cst.nodes@[i as int].kind,
            ) == Family::TheoryOperators ==> doc_layout(*final(b), r->0 as int) == operators_layout(
                ctx,
                built@,
                *old(b),
                kids,
                kids.len() as int,
            )
        }),
        ({
            let kids = code_kids(ctx.cst.nodes@, ctx.kinds, i as int, ctx.cst.nodes@[i as int].count as int);
            let (l, o, rt) = binary_kids(ctx, kids, kids.len() as int);
            r is Some && !final(b).full_spec() && family(ctx.kinds, ctx.cst.nodes@[i as int].kind) == Family::Binary
                && l is Some && o is Some && rt is Some ==> doc_text(*final(b), r->0 as int) == child_text(
                ctx,
                *old(b),
                built@[l->0 as int],
                l->0 as int,
            ) + child_text(ctx, *old(b), built@[o->0 as int], o->0 as int) + child_text(
                ctx,
                *old(b),
                built@[rt->0 as int],
                rt->0 as int,
            )
        }),
        ({
            let kids = code_kids(ctx.cst.nodes@, ctx.kinds, i as int, ctx.cst.nodes@[i as int].count as int);
            let (l, o, rt) = binary_kids(ctx, kids, kids.len() as int);
            r is Some && !final(b).full_spec() && family(ctx.kinds, ctx.cst.nodes@[i as int].kind) == Family::Binary
                && l is Some && o is Some && rt is Some && uncommented(ctx, l->0 as int) && uncommented(ctx, o->0 as int)
                && uncommented(ctx, rt->0 as int) ==> doc_layout(*final(b), r->0 as int) == binary_layout(
                ctx,
                built@,
                *old(b),
                l->0,
                o->0,
                rt->0,
                bracket_depth,
            )
        }),
        ({
            let kids = code_kids(ctx.cst.nodes@, ctx.kinds, i as int, ctx.cst.nodes@[i as int].count as int);
            let (l, o, rt) = binary_kids(ctx, kids, kids.len() as int);
            r is Some && !final(b).full_spec() && family(ctx.kinds, ctx.cst.nodes@[i as int].kind) == Family::Binary
                && l is Some && o is Some && rt is Some && uncommented(ctx, l->0 as int) && uncommented(ctx, o->0 as int)
                && uncommented(ctx, rt->0 as int) && bracket_depth == 0 && !(node_sliceable(ctx, o->0 as int)
                && node_chars(ctx, o->0 as int) == ".."@) ==> doc_layout(*final(b), r->0 as int) == doc_layout(
                *old(b),
                built@[l->0 as int] as int,
            ) + seq![Piece::Blank] + doc_layout(*old(b), built@[o->0 as int] as int) + seq![Piece::Blank] + doc_layout(
                *old(b),
                built@[rt->0 as int] as int,
            )
        }),
        ({
            let kids = code_kids(ctx.cst.nodes@, ctx.kinds, i as int, ctx.cst.nodes@[i as int].count as int);
            let (o, t) = unary_kids(ctx, kids, kids.len() as int);
            r is Some && !final(b).full_spec() && family(ctx.kinds, ctx.cst.nodes@[i as int].kind) == Family::Unary
                && o is Some && t is Some ==> doc_text(*final(b), r->0 as int) == child_text(
                ctx,
                *old(b),
                built@[o->0 as int],
                o->0 as int,
            ) + child_text(ctx, *old(b), built@[t->0 as int], t->0 as int)
        }),
        ({
            let kids = code_kids(ctx.cst.nodes@, ctx.kinds, i as int, ctx.cst.nodes@[i as int].count as int);
            let (o, t) = unary_kids(ctx, kids, kids.len() as int);
            r is Some && !final(b).full_spec() && family(ctx.kinds, ctx.cst.nodes@[i as int].kind) == Family::Unary
                && o is Some && t is Some && uncommented(ctx, o->0 as int) && uncommented(ctx, t->0 as int)
                ==> doc_layout(*final(b), r->0 as int) == doc_layout(*old(b), built@[o->0 as int] as int) + doc_layout(
                *old(b),
                built@[t->0 as int] as int,
            )
        }),
        ({
            let kids = code_kids(ctx.cst.nodes@, ctx.kinds, i as int, ctx.cst.nodes@[i as int].count as int);
            r is Some && !final(b).full_spec() && all_uncommented(ctx, kids) && family(
                ctx.kinds,
                ctx.cst.nodes@[i as int].kind,
            ) == Family::Script ==> doc_layout(*final(b), r->0 as int) == keyword_block_layout(
                built@,
                *old(b),
                kids,
                kids.len() as int,
            )
        }),
        r is Some && !final(b).full_spec() && family(ctx.kinds, ctx.cst.nodes@[i as int].kind) == Family::SourceFile
            && kids_uncommented(ctx, i as int) ==> doc_layout(*final(b), r->0 as int) == source_layout(
            ctx,
            built@,
            *old(b),
            i as int,
            ctx.cst.nodes@[i as int].count as int,
        ),
        r is Some && !final(b).full_spec() && family(ctx.kinds, ctx.cst.nodes@[i as int].kind) == Family::SourceFile
            ==> doc_text(*final(b), r->0 as int) == source_text(
            ctx,
            built@,
            *old(b),
            i as int,
            ctx.cst.nodes@[i as int].count as int,
        ),
        ({
            let kids = code_kids(ctx.cst.nodes@, ctx.kinds, i as int, ctx.cst.nodes@[i as int].count as int);
            r is Some && !final(b).full_spec() && family(ctx.kinds, ctx.cst.nodes@[i as int].kind) == Family::Directive
                && ctx.at.by_anchor@[i as int].dangling@.len() == 0 && plain_directive(ctx, kids) && all_uncommented(
                ctx,
                kids,
            ) ==> doc_layout(*final(b), r->0 as int) == directive_layout(ctx, built@, *old(b), kids, kids.len() as int)
        }),
        ({
            let kids = code_kids(ctx.cst.nodes@, ctx.kinds, i as int, ctx.cst.nodes@[i as int].count as int);
            r is Some && !final(b).full_spec() && family(ctx.kinds, ctx.cst.nodes@[i as int].kind) == Family::Edge
                && ctx.at.by_anchor@[i as int].dangling@.len() == 0 && bodiless_edge(ctx, kids) && all_uncommented(
                ctx,
                kids,
            ) ==> doc_layout(*final(b), r->0 as int) == edge_layout(ctx, built@, *old(b), kids, kids.len() as int)
        }),
        ({
            let kids = code_kids(ctx.cst.nodes@, ctx.kinds, i as int, ctx.cst.nodes@[i as int].count as int);
            let m = colon_at(ctx, kids, 0);
            r is Some && !final(b).full_spec() && family(ctx.kinds, ctx.cst.nodes@[i as int].kind) == Family::Conditional
                && ctx.at.by_anchor@[i as int].dangling@.len() == 0 && plain_condition(ctx, kids) ==> lays_first(
                doc_layout(*final(b), r->0 as int),
                kids_layout(built@, *old(b), kids, m) + seq![Piece::Blank] + doc_layout(
                    *old(b),
                    built@[kids[m].1 as int] as int,
                ),
            )
        }),
        ({
            let kids = code_kids(ctx.cst.nodes@, ctx.kinds, i as int, ctx.cst.nodes@[i as int].count as int);
            r is Some && !final(b).full_spec() && ctx.at.by_anchor@[i as int].dangling@.len() == 0 && all_uncommented(
                ctx,
                kids,
            ) && family(ctx.kinds, ctx.cst.nodes@[i as int].kind) == Family::Program ==> doc_layout(
                *final(b),
                r->0 as int,
            ) == keyword_block_layout(built@, *old(b), kids, kids.len() as int)
        }),
        ({
            let kids = code_kids(ctx.cst.nodes@, ctx.kinds, i as int, ctx.cst.nodes@[i as int].count as int);
            let f = family(ctx.kinds, ctx.cst.nodes@[i as int].kind);
            r is Some && !final(b).full_spec() && ctx.at.by_anchor@[i as int].dangling@.len() == 0 && all_uncommented(
                ctx,
                kids,
            ) && (f == Family::TheoryDirective || f == Family::TheoryTermDefinition) ==> doc_layout(
                *final(b),
                r->0 as int,
            ) == named_block_layout(ctx, built@, *old(b), kids, kids.len() as int)
        }),
        ({
            let kids = code_kids(ctx.cst.nodes@, ctx.kinds, i as int, ctx.cst.nodes@[i as int].count as int);
            let f = family(ctx.kinds, ctx.cst.nodes@[i as int].kind);
            r is Some && !final(b).full_spec() && all_uncommented(ctx, kids) && (f == Family::Guard || f
                == Family::TheoryUnparsed || f == Family::TheoryAtomUpper) ==> doc_layout(*final(b), r->0 as int)
                == joined_layout(built@, *old(b), kids, kids.len() as int, true)
        }),
        ({
            let kids = code_kids(ctx.cst.nodes@, ctx.kinds, i as int, ctx.cst.nodes@[i as int].count as int);
            let f = family(ctx.kinds, ctx.cst.nodes@[i as int].kind);
            r is Some && !final(b).full_spec() && all_uncommented(ctx, kids) && (f == Family::Signature || f
                == Family::Weight) ==> doc_layout(*final(b), r->0 as int) == joined_layout(
                built@,
                *old(b),
                kids,
                kids.len() as int,
                false,
            )
        }),
        ({
            let kids = code_kids(ctx.cst.nodes@, ctx.kinds, i as int, ctx.cst.nodes@[i as int].count as int);
            r is Some && !final(b).full_spec() && all_uncommented(ctx, kids) && family(
                ctx.kinds,
                ctx.cst.nodes@[i as int].kind,
            ) == Family::Comparison ==> doc_layout(*final(b), r->0 as int) == punctuated_layout(
                ctx,
                built@,
                *old(b),
                kids,
                kids.len() as int,
                ctx.kinds.relation,
                0,
                false,
            )
        }),
        ({
            let kids = code_kids(ctx.cst.nodes@, ctx.kinds, i as int, ctx.cst.nodes@[i as int].count as int);
            let f = family(ctx.kinds, ctx.cst.nodes@[i as int].kind);
            r is Some && !final(b).full_spec() && all_uncommented(ctx, kids) && (f == Family::TheoryOperatorDefinition
                || f == Family::TheoryAtomDefinition) ==> doc_layout(*final(b), r->0 as int) == punctuated_layout(
                ctx,
                built@,
                *old(b),
                kids,
                kids.len() as int,
                ctx.kinds.colon,
                ctx.kinds.comma,
                true,
            )
        }),
        ({
            let kids = code_kids(ctx.cst.nodes@, ctx.kinds, i as int, ctx.cst.nodes@[i as int].count as int);
            r is Some && !final(b).full_spec() && family(ctx.kinds, ctx.cst.nodes@[i as int].kind) == Family::Aggregate
                && ctx.at.by_anchor@[i as int].dangling@.len() == 0 && all_uncommented(ctx, kids) ==> doc_layout(
                *final(b),
                r->0 as int,
            ) == aggregate_layout(ctx, built@, *old(b), kids, kids.len() as int)
        }),
        ({
            let kids = code_kids(ctx.cst.nodes@, ctx.kinds, i as int, ctx.cst.nodes@[i as int].count as int);
            let f = family(ctx.kinds, ctx.cst.nodes@[i as int].kind);
            r is Some && !final(b).full_spec() && (f == Family::Application || f == Family::Abs)
                && ctx.at.by_anchor@[i as int].dangling@.len() == 0 && all_uncommented(ctx, kids) ==> doc_layout(
                *final(b),
                r->0 as int,
            ) == kids_layout(built@, *old(b), kids, kids.len() as int)
        }),
        ({
            let kids = code_kids(ctx.cst.nodes@, ctx.kinds, i as int, ctx.cst.nodes@[i as int].count as int);
            r is Some && !final(b).full_spec() && family(ctx.kinds, ctx.cst.nodes@[i as int].kind) == Family::Statement
                && ctx.at.by_anchor@[i as int].dangling@.len() == 0 && plain_neck(ctx, kids) ==> lays_first(
                doc_layout(*final(b), r->0 as int),
                doc_layout(*old(b), built@[kids[0].1 as int] as int) + seq![Piece::Blank],
            )
        }),
{
    let k = ctx.kinds;
    let id = ctx.cst.nodes[i].kind;
    if id == k.source_file {
        return Some(lower_source_file(ctx, i, built, b));
    }
    if has_unformattable_child(ctx, i) {
        return None;
    }
    if id == k.rule || id == k.integrity_constraint || id == k.weak_constraint {
        Some(lower_statement(ctx, i, built, b))
    } else if id == k.set_aggregate || id == k.head_aggregate || id == k.body_aggregate || id == k.theory_atom
        || id == k.minimize || id == k.maximize {
        Some(lower_aggregate(ctx, i, built, b))
    } else if id == k.body || id == k.disjunction || id == k.condition || id == k.set_aggregate_elements
        || id == k.head_aggregate_elements || id == k.body_aggregate_elements || id == k.theory_elements
        || id == k.optimize_elements || id == k.terms || id == k.theory_terms || id
        == k.theory_operator_definitions || id == k.parameters {
        Some(lower_separated_sequence(ctx, i, bracket_depth, built, b))
    } else if id == k.body_literal || id == k.literal {
        Some(lower_signed_atom(ctx, i, built, b))
    } else if is_conditional_family(k, id) {
        Some(lower_conditional(ctx, i, bracket_depth, built, b))
    } else if id == k.comparison {
        Some(lower_comparison(ctx, i, built, b))
    } else if id == k.lower || id == k.upper {
        Some(lower_guard(ctx, i, built, b))
    } else if id == k.symbolic_atom || id == k.function || id == k.external_function || id == k.tuple || id
        == k.theory_function || id == k.theory_tuple || id == k.theory_list || id == k.theory_set {
        Some(lower_application(ctx, i, bracket_depth, built, b))
    } else if id == k.binary_operation {
        Some(lower_binary_operation(ctx, i, bracket_depth, built, b))
    } else if id == k.unary_operation {
        Some(lower_unary_operation(ctx, i, built, b))
    } else if id == k.abs {
        Some(lower_abs(ctx, i, bracket_depth, built, b))
    } else if id == k.theory_unparsed_term {
        Some(lower_theory_unparsed_term(ctx, i, built, b))
    } else if id == k.theory_operators {
        Some(lower_theory_operators(ctx, i, built, b))
    } else if id == k.theory_atom_upper {
        Some(lower_theory_atom_upper(ctx, i, built, b))
    } else if id == k.theory {
        Some(lower_theory_directive(ctx, i, built, b))
    } else if id == k.theory_term_definition {
        Some(lower_theory_term_definition(ctx, i, built, b))
    } else if id == k.theory_operator_definition {
        Some(lower_theory_operator_definition(ctx, i, built, b))
    } else if id == k.theory_atom_definition {
        Some(lower_theory_atom_definition(ctx, i, built, b))
    } else if id == k.show || id == k.show_signature || id == k.show_term || id == k.defined || id
        == k.project_signature || id == k.project_atom || id == k.const_ || id == k.inclusion || id
        == k.external || id == k.heuristic {
        Some(lower_directive(ctx, i, built, b))
    } else if id == k.signature {
        Some(lower_flat_tight(ctx, i, built, b))
    } else if id == k.program {
        Some(lower_program(ctx, i, built, b))
    } else if id == k.weight {
        Some(lower_flat_tight(ctx, i, built, b))
    } else if id == k.edge {
        Some(lower_edge(ctx, i, built, b))
    } else if id == k.edge_pair {
        Some(lower_edge_pair(ctx, i, built, b))
    } else if id == k.script {
        Some(lower_script(ctx, i, built, b))
    } else {
        None
    }
}

} // verus!
