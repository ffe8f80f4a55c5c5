//! The strict (non-lazy) Lindig renderer: an iterative work-list (no recursion)
//! with an early-exit `fits`.
//!
//! The work-list holds `(indent, mode, node)` triples; the root starts in break
//! mode. A `Group` is laid flat iff it carries no forced break and `fits`
//! reports that its flat content plus the continuation up to the next line
//! break stays within the width. Line breaks are deferred: a break is recorded
//! as pending and written only when real content follows, so consecutive
//! breaks coalesce, a trailing break is dropped, a leading break is dropped,
//! and trailing blanks are stripped off every broken line.

use super::arena::{
    arena_wf, child_range, content, node_size, node_wf, range_content, range_size, spans_ok, DocNode, NodeId, Range,
    Span,
};
use super::builder::Doc;
use crate::text::{display_width, display_width_spec, slice_ok, string_from_utf8, try_slice};
use vstd::prelude::*;
use vstd::string::StringSliceAdditionalSpecFns;

verus! {

/// The layout mode of a work-list item.
#[derive(Clone, Copy, Debug, PartialEq, Eq, Structural)]
pub enum Mode {
    Flat,
    Break,
}

/// A deferred line break: the indent it resumes at, and whether it is a blank
/// (author blank line) break.
#[derive(Clone, Copy, Debug, PartialEq, Eq, Structural)]
pub struct Pending {
    pub indent: i32,
    pub blank: bool,
}

/// Render-operation tallies: `worklist_steps` counts work-list pops (nodes
/// visited), `fits_calls` the `fits` invocations, and `fits_chars` the columns
/// `fits` measured against its budget.
#[derive(Clone, Copy, Debug, PartialEq, Eq)]
pub struct RenderStats {
    pub worklist_steps: usize,
    pub fits_chars: usize,
    pub fits_calls: usize,
}

/// The node at `id`, or `Nil` outside the arena.
pub open spec fn node_at(nodes: Seq<DocNode>, id: int) -> DocNode {
    if 0 <= id < nodes.len() {
        nodes[id]
    } else {
        DocNode::Nil
    }
}

/// The summed subtree sizes of a work-list.
pub open spec fn stack_weight(nodes: Seq<DocNode>, cids: Seq<NodeId>, s: Seq<(i32, Mode, NodeId)>) -> nat
    decreases s.len(),
{
    if s.len() == 0 {
        0
    } else {
        stack_weight(nodes, cids, s.drop_last()) + node_size(nodes, cids, s.last().2 as int)
    }
}

/// Push the children `cids[lo..hi)` onto `s` in reverse, so they pop in order.
pub open spec fn push_rev(
    s: Seq<(i32, Mode, NodeId)>,
    cids: Seq<NodeId>,
    lo: int,
    hi: int,
    indent: i32,
    mode: Mode,
) -> Seq<(i32, Mode, NodeId)>
    decreases hi - lo,
{
    if hi <= lo || lo < 0 || hi > cids.len() {
        s
    } else {
        push_rev(s.push((indent, mode, cids[hi - 1])), cids, lo, hi - 1, indent, mode)
    }
}

/// Pushing a well-formed child range adds exactly its subtree sizes to the weight.
pub proof fn lemma_push_rev_weight(
    nodes: Seq<DocNode>,
    cids: Seq<NodeId>,
    s: Seq<(i32, Mode, NodeId)>,
    lo: int,
    hi: int,
    bound: int,
    indent: i32,
    mode: Mode,
)
    requires
        0 <= lo <= hi <= cids.len(),
        forall|k: int| lo <= k < hi ==> 0 <= #[trigger] cids[k] < bound,
    ensures
        stack_weight(nodes, cids, push_rev(s, cids, lo, hi, indent, mode)) == stack_weight(nodes, cids, s)
            + range_size(nodes, cids, lo, hi, bound),
    decreases hi - lo,
{
    if lo < hi {
        let s2 = s.push((indent, mode, cids[hi - 1]));
        assert(s2.drop_last() =~= s);
        lemma_push_rev_weight(nodes, cids, s2, lo, hi - 1, bound, indent, mode);
    }
}

/// The weight of a work-list strictly drops when its top item is expanded.
pub proof fn lemma_expand_weight(
    nodes: Seq<DocNode>,
    cids: Seq<NodeId>,
    s: Seq<(i32, Mode, NodeId)>,
    indent: i32,
    mode: Mode,
)
    requires
        arena_wf(nodes, cids),
        s.len() > 0,
    ensures
        ({
            let id = s.last().2 as int;
            let rest = s.drop_last();
            match child_range(node_at(nodes, id)) {
                Some(r) => stack_weight(nodes, cids, push_rev(rest, cids, r.start as int, r.end as int, indent, mode))
                    < stack_weight(nodes, cids, s),
                None => stack_weight(nodes, cids, rest) < stack_weight(nodes, cids, s),
            }
        }),
{
    let id = s.last().2 as int;
    let rest = s.drop_last();
    match child_range(node_at(nodes, id)) {
        Some(r) => {
            assert(0 <= id < nodes.len());
            assert(node_wf(nodes, cids, nodes[id], id));
            lemma_push_rev_weight(nodes, cids, rest, r.start as int, r.end as int, id, indent, mode);
        },
        None => {},
    }
}

/// `fits`: does the flat content of `work`, followed by the continuation `cont`
/// (consulted from its top) up to its first break, stay within `rem` columns?
/// Returns the verdict and the number of columns measured.
pub open spec fn fits_spec(
    nodes: Seq<DocNode>,
    cids: Seq<NodeId>,
    rem: int,
    work: Seq<(i32, Mode, NodeId)>,
    cont: Seq<(i32, Mode, NodeId)>,
) -> (bool, int)
    decreases cont.len(), stack_weight(nodes, cids, work),
{
    if !arena_wf(nodes, cids) {
        (false, 0)
    } else if work.len() == 0 {
        if cont.len() == 0 {
            (true, 0)
        } else {
            proof {
                assert(stack_weight(nodes, cids, seq![cont.last()]) >= 0);
            }
            fits_spec(nodes, cids, rem, seq![cont.last()], cont.drop_last())
        }
    } else {
        let (ind, mode, id) = work.last();
        let w = work.drop_last();
        proof {
            lemma_expand_weight(nodes, cids, work, ind, mode);
            lemma_expand_weight(nodes, cids, work, ind, Mode::Flat);
            match node_at(nodes, id as int) {
                DocNode::Nest { delta, child } => {
                    lemma_expand_weight(nodes, cids, work, ind.wrapping_add(delta), mode);
                },
                _ => {},
            }
        }
        match node_at(nodes, id as int) {
            DocNode::Nil => fits_spec(nodes, cids, rem, w, cont),
            DocNode::Leaf(sp) => {
                if sp.width > rem {
                    (false, 0)
                } else {
                    let r = fits_spec(nodes, cids, rem - sp.width, w, cont);
                    (r.0, r.1 + sp.width)
                }
            },
            DocNode::Hardline => (true, 0),
            DocNode::Verbatim(_) => (false, 0),
            DocNode::Line => {
                if mode == Mode::Flat {
                    if rem <= 0 {
                        (false, 0)
                    } else {
                        let r = fits_spec(nodes, cids, rem - 1, w, cont);
                        (r.0, r.1 + 1)
                    }
                } else {
                    (true, 0)
                }
            },
            DocNode::Space => {
                if rem <= 0 {
                    (false, 0)
                } else {
                    let r = fits_spec(nodes, cids, rem - 1, w, cont);
                    (r.0, r.1 + 1)
                }
            },
            DocNode::SoftLine => {
                if mode == Mode::Flat {
                    fits_spec(nodes, cids, rem, w, cont)
                } else {
                    (true, 0)
                }
            },
            DocNode::BlankLine => {
                if mode == Mode::Flat {
                    fits_spec(nodes, cids, rem, w, cont)
                } else {
                    (true, 0)
                }
            },
            DocNode::Nest { delta, child } => fits_spec(
                nodes,
                cids,
                rem,
                push_rev(w, cids, child.start as int, child.end as int, ind.wrapping_add(delta), mode),
                cont,
            ),
            DocNode::Sequence(r) => fits_spec(
                nodes,
                cids,
                rem,
                push_rev(w, cids, r.start as int, r.end as int, ind, mode),
                cont,
            ),
            DocNode::Group { child, .. } => fits_spec(
                nodes,
                cids,
                rem,
                push_rev(w, cids, child.start as int, child.end as int, ind, Mode::Flat),
                cont,
            ),
        }
    }
}

/// The renderer's state between two work-list steps.
pub struct RState {
    pub out: Seq<u8>,
    pub col: usize,
    pub pending: Option<Pending>,
    pub stack: Seq<(i32, Mode, NodeId)>,
    pub steps: usize,
    pub fits_calls: usize,
    pub fits_chars: usize,
}

/// `n` blanks.
pub open spec fn spaces(n: nat) -> Seq<u8> {
    Seq::new(n, |i: int| 32u8)
}

/// The column an indent resumes at (negative indents clamp to zero).
pub open spec fn pad_of(indent: i32) -> usize {
    if indent < 0 {
        0
    } else {
        indent as usize
    }
}

/// `s` with its trailing blanks and tabs removed.
pub open spec fn trim_ws(s: Seq<u8>) -> Seq<u8>
    decreases s.len(),
{
    if s.len() > 0 && (s.last() == 32u8 || s.last() == 9u8) {
        trim_ws(s.drop_last())
    } else {
        s
    }
}

/// Record a deferred break at `indent`, coalescing with any pending break: the
/// new indent wins and the blank bit accumulates.
pub open spec fn defer_spec(p: Option<Pending>, indent: i32, blank: bool) -> Pending {
    Pending {
        indent,
        blank: blank || (match p {
            Some(q) => q.blank,
            None => false,
        }),
    }
}

/// Materialize a pending break before real content: dropped when nothing was
/// written yet; otherwise the line's trailing blanks are stripped, a blank
/// break adds an empty line, and a newline plus the indent follows.
pub open spec fn flush_spec(out: Seq<u8>, pending: Option<Pending>, col: usize) -> (Seq<u8>, usize) {
    match pending {
        None => (out, col),
        Some(p) => {
            if out.len() == 0 {
                (out, col)
            } else {
                let t = trim_ws(out);
                let t2 = if p.blank { t.push(10u8) } else { t };
                (t2.push(10u8) + spaces(pad_of(p.indent) as nat), pad_of(p.indent))
            }
        },
    }
}

/// The last index of a newline in `s`, if any.
pub open spec fn last_newline(s: Seq<u8>) -> Option<int>
    decreases s.len(),
{
    if s.len() == 0 {
        None
    } else if s.last() == 10u8 {
        Some(s.len() - 1)
    } else {
        last_newline(s.drop_last())
    }
}

/// The column after a verbatim span: the width of its last line when it spans
/// lines, else the current column advanced by its width.
pub open spec fn verbatim_col(src: Seq<u8>, sp: Span, col: usize) -> usize {
    let a = sp.start as int;
    let b = sp.start + sp.len;
    match last_newline(src.subrange(a, b)) {
        Some(k) => {
            if slice_ok(src, a + k + 1, b) {
                display_width_spec(vstd::utf8::decode_utf8(src.subrange(a + k + 1, b)))
            } else {
                0
            }
        },
        None => {
            if slice_ok(src, a, b) {
                col.saturating_add(display_width_spec(vstd::utf8::decode_utf8(src.subrange(a, b))))
            } else {
                col
            }
        },
    }
}

/// One work-list step of the renderer.
pub open spec fn step_spec(nodes: Seq<DocNode>, cids: Seq<NodeId>, src: Seq<u8>, width: usize, s: RState) -> RState {
    let (ind, mode, id) = s.stack.last();
    let st = s.stack.drop_last();
    let s0 = RState { stack: st, steps: s.steps.saturating_add(1), ..s };
    match node_at(nodes, id as int) {
        DocNode::Nil => s0,
        DocNode::Leaf(sp) => {
            let (o, c) = flush_spec(s.out, s.pending, s.col);
            RState {
                out: o + src.subrange(sp.start as int, sp.start + sp.len),
                col: c.saturating_add(sp.width as usize),
                pending: None,
                ..s0
            }
        },
        DocNode::Verbatim(sp) => {
            let (o, c) = flush_spec(s.out, s.pending, s.col);
            RState {
                out: o + src.subrange(sp.start as int, sp.start + sp.len),
                col: verbatim_col(src, sp, c),
                pending: None,
                ..s0
            }
        },
        DocNode::Line => {
            if mode == Mode::Flat {
                let (o, c) = flush_spec(s.out, s.pending, s.col);
                RState { out: o.push(32u8), col: c.saturating_add(1), pending: None, ..s0 }
            } else {
                RState { pending: Some(defer_spec(s.pending, ind, false)), col: pad_of(ind), ..s0 }
            }
        },
        DocNode::Space => {
            if s.pending is None {
                RState { out: s.out.push(32u8), col: s.col.saturating_add(1), ..s0 }
            } else {
                s0
            }
        },
        DocNode::SoftLine => {
            if mode == Mode::Flat {
                s0
            } else {
                RState { pending: Some(defer_spec(s.pending, ind, false)), col: pad_of(ind), ..s0 }
            }
        },
        DocNode::Hardline => RState { pending: Some(defer_spec(s.pending, ind, false)), col: pad_of(ind), ..s0 },
        DocNode::BlankLine => {
            if mode == Mode::Flat {
                s0
            } else {
                RState { pending: Some(defer_spec(s.pending, ind, true)), col: pad_of(ind), ..s0 }
            }
        },
        DocNode::Nest { delta, child } => RState {
            stack: push_rev(st, cids, child.start as int, child.end as int, ind.wrapping_add(delta), mode),
            ..s0
        },
        DocNode::Sequence(r) => RState { stack: push_rev(st, cids, r.start as int, r.end as int, ind, mode), ..s0 },
        DocNode::Group { child, forced_break } => {
            if forced_break {
                RState {
                    stack: push_rev(st, cids, child.start as int, child.end as int, ind, Mode::Break),
                    ..s0
                }
            } else {
                let f = fits_spec(
                    nodes,
                    cids,
                    width.saturating_sub(s.col) as int,
                    push_rev(Seq::empty(), cids, child.start as int, child.end as int, ind, Mode::Flat),
                    st,
                );
                let m = if f.0 { Mode::Flat } else { Mode::Break };
                RState {
                    stack: push_rev(st, cids, child.start as int, child.end as int, ind, m),
                    fits_calls: s.fits_calls.saturating_add(1),
                    fits_chars: s.fits_chars.saturating_add(f.1 as usize),
                    ..s0
                }
            }
        },
    }
}

/// Run the work-list to exhaustion.
pub open spec fn run_spec(nodes: Seq<DocNode>, cids: Seq<NodeId>, src: Seq<u8>, width: usize, s: RState) -> RState
    decreases stack_weight(nodes, cids, s.stack),
{
    if !arena_wf(nodes, cids) || s.stack.len() == 0 {
        s
    } else {
        proof {
            lemma_step_weight(nodes, cids, src, width, s);
        }
        run_spec(nodes, cids, src, width, step_spec(nodes, cids, src, width, s))
    }
}

/// The initial render state: nothing written, the root in break mode.
pub open spec fn init_state(root: NodeId) -> RState {
    RState {
        out: Seq::empty(),
        col: 0,
        pending: None,
        stack: seq![(0i32, Mode::Break, root)],
        steps: 0,
        fits_calls: 0,
        fits_chars: 0,
    }
}

/// The bytes the renderer produces for `doc` over `src` at `width`.
pub open spec fn render_bytes(nodes: Seq<DocNode>, cids: Seq<NodeId>, root: NodeId, src: Seq<u8>, width: usize) -> Seq<u8> {
    run_spec(nodes, cids, src, width, init_state(root)).out
}

/// Each step strictly lowers the work-list weight.
pub proof fn lemma_step_weight(nodes: Seq<DocNode>, cids: Seq<NodeId>, src: Seq<u8>, width: usize, s: RState)
    requires
        arena_wf(nodes, cids),
        s.stack.len() > 0,
    ensures
        stack_weight(nodes, cids, step_spec(nodes, cids, src, width, s).stack) + 1 == stack_weight(
            nodes,
            cids,
            s.stack,
        ),
{
    let (ind, mode, id) = s.stack.last();
    let st = s.stack.drop_last();
    let n = node_at(nodes, id as int);
    match child_range(n) {
        Some(r) => {
            assert(0 <= id < nodes.len());
            assert(node_wf(nodes, cids, nodes[id as int], id as int));
            lemma_push_rev_weight(nodes, cids, st, r.start as int, r.end as int, id as int, ind, Mode::Break);
            lemma_push_rev_weight(nodes, cids, st, r.start as int, r.end as int, id as int, ind, Mode::Flat);
            lemma_push_rev_weight(nodes, cids, st, r.start as int, r.end as int, id as int, ind, mode);
            match n {
                DocNode::Nest { delta, .. } => {
                    lemma_push_rev_weight(
                        nodes,
                        cids,
                        st,
                        r.start as int,
                        r.end as int,
                        id as int,
                        ind.wrapping_add(delta),
                        mode,
                    );
                },
                _ => {},
            }
        },
        None => {},
    }
}


/// Under a well-formed arena, the steps a run takes are exactly the weight of
/// its work-list (saturated at the counter's limit).
pub proof fn lemma_run_steps(nodes: Seq<DocNode>, cids: Seq<NodeId>, src: Seq<u8>, width: usize, s: RState)
    requires
        arena_wf(nodes, cids),
    ensures
        run_spec(nodes, cids, src, width, s).steps as int == (if s.steps + stack_weight(nodes, cids, s.stack)
            > usize::MAX {
            usize::MAX as int
        } else {
            s.steps + stack_weight(nodes, cids, s.stack)
        }),
    decreases stack_weight(nodes, cids, s.stack),
{
    if s.stack.len() > 0 {
        lemma_step_weight(nodes, cids, src, width, s);
        lemma_run_steps(nodes, cids, src, width, step_spec(nodes, cids, src, width, s));
    }
}

/// A byte the renderer lays out with: a blank, a tab or a newline.
pub open spec fn is_layout(b: u8) -> bool {
    b == 32u8 || b == 9u8 || b == 10u8
}

/// `s` without its layout bytes.
pub open spec fn strip_layout(s: Seq<u8>) -> Seq<u8>
    decreases s.len(),
{
    if s.len() == 0 {
        Seq::empty()
    } else if is_layout(s.last()) {
        strip_layout(s.drop_last())
    } else {
        strip_layout(s.drop_last()).push(s.last())
    }
}

/// The source bytes that `spans` name, concatenated in order.
pub open spec fn spans_bytes(src: Seq<u8>, spans: Seq<Span>) -> Seq<u8>
    decreases spans.len(),
{
    if spans.len() == 0 {
        Seq::empty()
    } else {
        spans_bytes(src, spans.drop_last()) + src.subrange(
            spans.last().start as int,
            spans.last().start + spans.last().len,
        )
    }
}

/// The text a work-list has still to print, its top first.
pub open spec fn stack_content(nodes: Seq<DocNode>, cids: Seq<NodeId>, s: Seq<(i32, Mode, NodeId)>) -> Seq<Span>
    decreases s.len(),
{
    if s.len() == 0 {
        Seq::empty()
    } else {
        content(nodes, cids, s.last().2 as int) + stack_content(nodes, cids, s.drop_last())
    }
}

/// Stripping distributes over concatenation.
pub proof fn lemma_strip_concat(a: Seq<u8>, b: Seq<u8>)
    ensures
        strip_layout(a + b) == strip_layout(a) + strip_layout(b),
    decreases b.len(),
{
    if b.len() == 0 {
        assert(a + b =~= a);
        assert(strip_layout(b) =~= Seq::<u8>::empty());
        assert(strip_layout(a) + strip_layout(b) =~= strip_layout(a));
    } else {
        assert((a + b).drop_last() =~= a + b.drop_last());
        assert((a + b).last() == b.last());
        lemma_strip_concat(a, b.drop_last());
        if is_layout(b.last()) {
        } else {
            assert(strip_layout(a + b) =~= strip_layout(a) + strip_layout(b));
        }
    }
}

/// Trimming trailing blanks and tabs strips nothing but layout.
pub proof fn lemma_strip_trim(s: Seq<u8>)
    ensures
        strip_layout(trim_ws(s)) == strip_layout(s),
    decreases s.len(),
{
    if s.len() > 0 && (s.last() == 32u8 || s.last() == 9u8) {
        lemma_strip_trim(s.drop_last());
    }
}

/// Blanks are all layout.
pub proof fn lemma_strip_spaces(n: nat)
    ensures
        strip_layout(spaces(n)) == Seq::<u8>::empty(),
    decreases n,
{
    if n > 0 {
        assert(spaces(n).drop_last() =~= spaces((n - 1) as nat));
        assert(spaces(n).last() == 32u8);
        lemma_strip_spaces((n - 1) as nat);
    }
}

/// Materializing a pending break adds and removes only layout.
pub proof fn lemma_strip_flush(out: Seq<u8>, pending: Option<Pending>, col: usize)
    ensures
        strip_layout(flush_spec(out, pending, col).0) == strip_layout(out),
{
    match pending {
        None => {},
        Some(p) => {
            if out.len() > 0 {
                let t = trim_ws(out);
                lemma_strip_trim(out);
                let t2 = if p.blank {
                    t.push(10u8)
                } else {
                    t
                };
                if p.blank {
                    assert(t.push(10u8).drop_last() =~= t);
                    assert(t.push(10u8).last() == 10u8);
                    assert(strip_layout(t.push(10u8)) == strip_layout(t));
                }
                assert(strip_layout(t2) == strip_layout(out));
                assert(t2.push(10u8).drop_last() =~= t2);
                assert(t2.push(10u8).last() == 10u8);
                assert(strip_layout(t2.push(10u8)) == strip_layout(t2));
                lemma_strip_concat(t2.push(10u8), spaces(pad_of(p.indent) as nat));
                lemma_strip_spaces(pad_of(p.indent) as nat);
                assert(strip_layout(t2.push(10u8)) + Seq::<u8>::empty() =~= strip_layout(t2.push(10u8)));
                assert(flush_spec(out, pending, col).0 == t2.push(10u8) + spaces(pad_of(p.indent) as nat));
            }
        },
    }
}

/// The bytes of a concatenation of span runs.
pub proof fn lemma_spans_bytes_concat(src: Seq<u8>, a: Seq<Span>, b: Seq<Span>)
    ensures
        spans_bytes(src, a + b) == spans_bytes(src, a) + spans_bytes(src, b),
    decreases b.len(),
{
    if b.len() == 0 {
        assert(a + b =~= a);
        assert(spans_bytes(src, a) + spans_bytes(src, b) =~= spans_bytes(src, a));
    } else {
        assert((a + b).drop_last() =~= a + b.drop_last());
        assert((a + b).last() == b.last());
        lemma_spans_bytes_concat(src, a, b.drop_last());
        let x = src.subrange(b.last().start as int, b.last().start + b.last().len);
        assert(spans_bytes(src, a + b) =~= spans_bytes(src, a) + spans_bytes(src, b.drop_last()) + x);
        assert(spans_bytes(src, a) + spans_bytes(src, b) =~= spans_bytes(src, a) + (spans_bytes(src, b.drop_last())
            + x));
    }
}

/// Pushing a well-formed child range puts its text ahead of the rest.
pub proof fn lemma_push_rev_content(
    nodes: Seq<DocNode>,
    cids: Seq<NodeId>,
    s: Seq<(i32, Mode, NodeId)>,
    lo: int,
    hi: int,
    bound: int,
    indent: i32,
    mode: Mode,
)
    requires
        0 <= lo <= hi <= cids.len(),
        forall|k: int| lo <= k < hi ==> 0 <= #[trigger] cids[k] < bound,
    ensures
        stack_content(nodes, cids, push_rev(s, cids, lo, hi, indent, mode)) == range_content(nodes, cids, lo, hi, bound)
            + stack_content(nodes, cids, s),
    decreases hi - lo,
{
    if lo < hi {
        let s2 = s.push((indent, mode, cids[hi - 1]));
        assert(s2.drop_last() =~= s);
        assert(cids[hi - 1] < bound);
        lemma_push_rev_content(nodes, cids, s2, lo, hi - 1, bound, indent, mode);
        assert(stack_content(nodes, cids, s2) == content(nodes, cids, cids[hi - 1] as int) + stack_content(
            nodes,
            cids,
            s,
        ));
        assert(range_content(nodes, cids, lo, hi, bound) == range_content(nodes, cids, lo, hi - 1, bound) + content(
            nodes,
            cids,
            cids[hi - 1] as int,
        ));
        assert(range_content(nodes, cids, lo, hi - 1, bound) + stack_content(nodes, cids, s2) =~= range_content(
            nodes,
            cids,
            lo,
            hi,
            bound,
        ) + stack_content(nodes, cids, s));
    } else {
        assert(range_content(nodes, cids, lo, hi, bound) =~= Seq::<Span>::empty());
        assert(Seq::<Span>::empty() + stack_content(nodes, cids, s) =~= stack_content(nodes, cids, s));
    }
}

/// What has been printed plus what is still to print, without layout.
pub open spec fn printed_and_pending(nodes: Seq<DocNode>, cids: Seq<NodeId>, src: Seq<u8>, s: RState) -> Seq<u8> {
    strip_layout(s.out) + strip_layout(spans_bytes(src, stack_content(nodes, cids, s.stack)))
}

/// One step moves text from the work-list to the output and adds only layout.
pub proof fn lemma_step_layout(nodes: Seq<DocNode>, cids: Seq<NodeId>, src: Seq<u8>, width: usize, s: RState)
    requires
        arena_wf(nodes, cids),
        s.stack.len() > 0,
    ensures
        printed_and_pending(nodes, cids, src, step_spec(nodes, cids, src, width, s)) == printed_and_pending(
            nodes,
            cids,
            src,
            s,
        ),
{
    let (ind, mode, id) = s.stack.last();
    let st = s.stack.drop_last();
    let n = node_at(nodes, id as int);
    let rest = stack_content(nodes, cids, st);
    let next = step_spec(nodes, cids, src, width, s);
    assert(stack_content(nodes, cids, s.stack) == content(nodes, cids, id as int) + rest);
    lemma_strip_flush(s.out, s.pending, s.col);
    match child_range(n) {
        Some(r) => {
            assert(0 <= id < nodes.len());
            assert(node_wf(nodes, cids, nodes[id as int], id as int));
            assert(content(nodes, cids, id as int) == range_content(nodes, cids, r.start as int, r.end as int, id as int));
            lemma_push_rev_content(nodes, cids, st, r.start as int, r.end as int, id as int, ind, Mode::Break);
            lemma_push_rev_content(nodes, cids, st, r.start as int, r.end as int, id as int, ind, Mode::Flat);
            lemma_push_rev_content(nodes, cids, st, r.start as int, r.end as int, id as int, ind, mode);
            match n {
                DocNode::Nest { delta, .. } => {
                    lemma_push_rev_content(
                        nodes,
                        cids,
                        st,
                        r.start as int,
                        r.end as int,
                        id as int,
                        ind.wrapping_add(delta),
                        mode,
                    );
                },
                _ => {},
            }
            assert(stack_content(nodes, cids, next.stack) == stack_content(nodes, cids, s.stack));
            assert(next.out == s.out);
        },
        None => {
            assert(next.stack == st);
            match n {
                DocNode::Leaf(sp) => {
                    let piece = src.subrange(sp.start as int, sp.start + sp.len);
                    assert(content(nodes, cids, id as int) == seq![sp]);
                    assert(seq![sp] + rest == seq![sp] + rest);
                    lemma_spans_bytes_concat(src, seq![sp], rest);
                    assert(seq![sp].drop_last() =~= Seq::<Span>::empty());
                    assert(seq![sp].last() == sp);
                    assert(spans_bytes(src, Seq::<Span>::empty()) =~= Seq::<u8>::empty());
                    assert(spans_bytes(src, seq![sp]) =~= piece);
                    lemma_strip_concat(flush_spec(s.out, s.pending, s.col).0, piece);
                    lemma_strip_concat(piece, spans_bytes(src, rest));
                    assert(printed_and_pending(nodes, cids, src, next) =~= printed_and_pending(nodes, cids, src, s));
                },
                DocNode::Verbatim(sp) => {
                    let piece = src.subrange(sp.start as int, sp.start + sp.len);
                    assert(content(nodes, cids, id as int) == seq![sp]);
                    lemma_spans_bytes_concat(src, seq![sp], rest);
                    assert(seq![sp].drop_last() =~= Seq::<Span>::empty());
                    assert(seq![sp].last() == sp);
                    assert(spans_bytes(src, Seq::<Span>::empty()) =~= Seq::<u8>::empty());
                    assert(spans_bytes(src, seq![sp]) =~= piece);
                    lemma_strip_concat(flush_spec(s.out, s.pending, s.col).0, piece);
                    lemma_strip_concat(piece, spans_bytes(src, rest));
                    assert(printed_and_pending(nodes, cids, src, next) =~= printed_and_pending(nodes, cids, src, s));
                },
                _ => {
                    assert(content(nodes, cids, id as int) =~= Seq::<Span>::empty());
                    assert(Seq::<Span>::empty() + rest =~= rest);
                    let o = flush_spec(s.out, s.pending, s.col).0;
                    assert(o.push(32u8).drop_last() =~= o);
                    assert(s.out.push(32u8).drop_last() =~= s.out);
                    assert(strip_layout(next.out) == strip_layout(s.out));
                },
            }
        },
    }
}

/// A whole run prints exactly the work-list's text, with only layout added.
pub proof fn lemma_run_layout(nodes: Seq<DocNode>, cids: Seq<NodeId>, src: Seq<u8>, width: usize, s: RState)
    requires
        arena_wf(nodes, cids),
    ensures
        strip_layout(run_spec(nodes, cids, src, width, s).out) == printed_and_pending(nodes, cids, src, s),
    decreases stack_weight(nodes, cids, s.stack),
{
    if s.stack.len() > 0 {
        lemma_step_weight(nodes, cids, src, width, s);
        lemma_step_layout(nodes, cids, src, width, s);
        lemma_run_layout(nodes, cids, src, width, step_spec(nodes, cids, src, width, s));
    } else {
        assert(stack_content(nodes, cids, s.stack) =~= Seq::<Span>::empty());
        assert(spans_bytes(src, Seq::<Span>::empty()) =~= Seq::<u8>::empty());
        assert(strip_layout(Seq::<u8>::empty()) =~= Seq::<u8>::empty());
        assert(strip_layout(s.out) + Seq::<u8>::empty() =~= strip_layout(s.out));
    }
}

/// The renderer only lays out: with blanks, tabs and newlines removed, what it
/// prints for a document is exactly the source text of the document's text
/// spans, in order. Every `Leaf` and `Verbatim` is printed once, in document
/// order; nothing else but layout is printed.
pub proof fn lemma_render_only_lays_out(
    nodes: Seq<DocNode>,
    cids: Seq<NodeId>,
    root: NodeId,
    src: Seq<u8>,
    width: usize,
)
    requires
        arena_wf(nodes, cids),
    ensures
        strip_layout(render_bytes(nodes, cids, root, src, width)) == strip_layout(
            spans_bytes(src, content(nodes, cids, root as int)),
        ),
{
    let init = init_state(root);
    lemma_run_layout(nodes, cids, src, width, init);
    assert(init.stack.drop_last() =~= Seq::<(i32, Mode, NodeId)>::empty());
    assert(stack_content(nodes, cids, init.stack.drop_last()) =~= Seq::<Span>::empty());
    assert(stack_content(nodes, cids, init.stack) =~= content(nodes, cids, root as int));
    assert(strip_layout(Seq::<u8>::empty()) =~= Seq::<u8>::empty());
    assert(Seq::<u8>::empty() + strip_layout(spans_bytes(src, content(nodes, cids, root as int))) =~= strip_layout(
        spans_bytes(src, content(nodes, cids, root as int)),
    ));
}

/// Push the child ids `cids[r.start..r.end)` onto `stack` in reverse.
fn push_children_rev(doc: &Doc, stack: &mut Vec<(i32, Mode, NodeId)>, r: Range, indent: i32, mode: Mode)
    requires
        r.start <= r.end <= doc.cids_spec().len(),
    ensures
        final(stack)@ == push_rev(old(stack)@, doc.cids_spec(), r.start as int, r.end as int, indent, mode),
{
    let mut j = r.end;
    while j > r.start
        invariant
            r.start <= j <= r.end <= doc.cids_spec().len(),
            push_rev(stack@, doc.cids_spec(), r.start as int, j as int, indent, mode) == push_rev(
                old(stack)@,
                doc.cids_spec(),
                r.start as int,
                r.end as int,
                indent,
                mode,
            ),
        decreases j - r.start,
    {
        let c = doc.child_id(j - 1);
        stack.push((indent, mode, c));
        j = j - 1;
    }
}

/// The node at `id`, or `Nil` outside the arena.
fn node_or_nil(doc: &Doc, id: NodeId) -> (n: DocNode)
    ensures
        n == node_at(doc.nodes_spec(), id as int),
{
    if (id as usize) < doc.len() {
        doc.node(id)
    } else {
        DocNode::Nil
    }
}

/// A node of a well-formed arena names a child range inside the buffer.
proof fn lemma_range_in_buffer(doc: &Doc, id: int)
    requires
        doc.wf(),
    ensures
        match child_range(node_at(doc.nodes_spec(), id)) {
            Some(r) => r.start <= r.end <= doc.cids_spec().len(),
            None => true,
        },
{
    if 0 <= id < doc.nodes_spec().len() {
        assert(node_wf(doc.nodes_spec(), doc.cids_spec(), doc.nodes_spec()[id], id));
    }
}

/// Early-exit `fits`: does the group's flat content, followed by the
/// continuation (the render stack, from its top) up to its next line break,
/// fit in `remaining` columns? Also returns the columns it measured.
fn fits(doc: &Doc, remaining: usize, indent: i32, child: Range, stack: &Vec<(i32, Mode, NodeId)>) -> (r: (
    bool,
    usize,
))
    requires
        doc.wf(),
        child.start <= child.end <= doc.cids_spec().len(),
    ensures
        (r.0, r.1 as int) == fits_spec(
            doc.nodes_spec(),
            doc.cids_spec(),
            remaining as int,
            push_rev(Seq::empty(), doc.cids_spec(), child.start as int, child.end as int, indent, Mode::Flat),
            stack@,
        ),
        r.1 <= remaining,
{
    let ghost nodes = doc.nodes_spec();
    let ghost cids = doc.cids_spec();
    let mut work: Vec<(i32, Mode, NodeId)> = Vec::new();
    push_children_rev(doc, &mut work, child, indent, Mode::Flat);
    let ghost target = fits_spec(nodes, cids, remaining as int, work@, stack@);
    let mut j = stack.len();
    let mut rem = remaining;
    let mut acc: usize = 0;
    assert(stack@.subrange(0, j as int) =~= stack@);
    loop
        invariant
            doc.wf(),
            nodes == doc.nodes_spec(),
            cids == doc.cids_spec(),
            j <= stack@.len(),
            acc + rem == remaining,
            target == fits_spec(
                nodes,
                cids,
                remaining as int,
                push_rev(Seq::empty(), cids, child.start as int, child.end as int, indent, Mode::Flat),
                stack@,
            ),
            fits_spec(nodes, cids, rem as int, work@, stack@.subrange(0, j as int)).0 == target.0,
            fits_spec(nodes, cids, rem as int, work@, stack@.subrange(0, j as int)).1 + acc == target.1,
        decreases j, stack_weight(nodes, cids, work@),
    {
        let ghost cont = stack@.subrange(0, j as int);
        if work.len() == 0 {
            if j == 0 {
                assert(cont.len() == 0);
                assert(fits_spec(nodes, cids, rem as int, work@, cont) == (true, 0int));
                return (true, acc);
            }
            let next = stack[j - 1];
            work.push(next);
            assert(work@ =~= seq![cont.last()]);
            assert(cont.drop_last() =~= stack@.subrange(0, j - 1));
            j = j - 1;
            continue;
        }
        let ghost w0 = work@;
        let (ind, mode, id) = work.pop().unwrap();
        assert(work@ =~= w0.drop_last());
        let n = node_or_nil(doc, id);
        assert(w0.last() == (ind, mode, id));
        assert(node_at(nodes, w0.last().2 as int) == n);
        proof {
            lemma_range_in_buffer(doc, id as int);
            lemma_expand_weight(nodes, cids, w0, ind, mode);
            lemma_expand_weight(nodes, cids, w0, ind, Mode::Flat);
            match n {
                DocNode::Nest { delta, .. } => {
                    lemma_expand_weight(nodes, cids, w0, ind.wrapping_add(delta), mode);
                },
                _ => {},
            }
        }
        match n {
            DocNode::Nil => {},
            DocNode::Leaf(sp) => {
                let w = sp.width as usize;
                if w > rem {
                    return (false, acc);
                }
                rem = rem - w;
                acc = acc + w;
            },
            DocNode::Hardline => {
                return (true, acc);
            },
            DocNode::Verbatim(_) => {
                return (false, acc);
            },
            DocNode::Line => {
                if mode == Mode::Flat {
                    if rem == 0 {
                        return (false, acc);
                    }
                    rem = rem - 1;
                    acc = acc + 1;
                } else {
                    return (true, acc);
                }
            },
            DocNode::Space => {
                if rem == 0 {
                    return (false, acc);
                }
                rem = rem - 1;
                acc = acc + 1;
            },
            DocNode::SoftLine => {
                if mode == Mode::Break {
                    return (true, acc);
                }
            },
            DocNode::BlankLine => {
                if mode == Mode::Break {
                    return (true, acc);
                }
            },
            DocNode::Nest { delta, child } => {
                push_children_rev(doc, &mut work, child, ind.wrapping_add(delta), mode);
            },
            DocNode::Sequence(r) => {
                push_children_rev(doc, &mut work, r, ind, mode);
            },
            DocNode::Group { child, .. } => {
                push_children_rev(doc, &mut work, child, ind, Mode::Flat);
            },
        }
    }
}

/// Remove the trailing blanks and tabs of `out`.
fn trim_trailing_ws(out: &mut Vec<u8>)
    ensures
        final(out)@ == trim_ws(old(out)@),
{
    while out.len() > 0 && (out[out.len() - 1] == 32u8 || out[out.len() - 1] == 9u8)
        invariant
            trim_ws(out@) == trim_ws(old(out)@),
        decreases out@.len(),
    {
        let ghost before = out@;
        out.pop();
        assert(out@ =~= before.drop_last());
    }
}

/// Materialize a pending break immediately before real content.
fn flush(out: &mut Vec<u8>, pending: &mut Option<Pending>, col: &mut usize)
    ensures
        (final(out)@, *final(col)) == flush_spec(old(out)@, *old(pending), *old(col)),
        *final(pending) == None::<Pending>,
{
    let p = match *pending {
        None => {
            return;
        },
        Some(p) => p,
    };
    *pending = None;
    if out.len() == 0 {
        return;
    }
    trim_trailing_ws(out);
    if p.blank {
        out.push(10u8);
    }
    out.push(10u8);
    let pad: usize = if p.indent < 0 { 0 } else { p.indent as usize };
    let ghost base = out@;
    let mut k: usize = 0;
    while k < pad
        invariant
            k <= pad,
            out@ == base + spaces(k as nat),
        decreases pad - k,
    {
        out.push(32u8);
        k = k + 1;
        assert(out@ =~= base + spaces(k as nat));
    }
    *col = pad;
}

/// The column after emitting the verbatim span `sp` at column `col`.
fn verbatim_column(src: &str, bytes: &[u8], sp: Span, col: usize) -> (c: usize)
    requires
        bytes@ == src.spec_bytes(),
        sp.start + sp.len <= bytes@.len(),
    ensures
        c == verbatim_col(src.spec_bytes(), sp, col),
{
    let ghost sb = src.spec_bytes();
    assert(bytes@.len() == bytes.len());
    let a = sp.start as usize;
    let b = a + sp.len as usize;
    let mut j = b;
    while j > a && bytes[j - 1] != 10u8
        invariant
            a <= j <= b <= sb.len(),
            bytes@ == sb,
            last_newline(sb.subrange(a as int, b as int)) == last_newline(sb.subrange(a as int, j as int)),
        decreases j - a,
    {
        assert(sb.subrange(a as int, j as int).drop_last() =~= sb.subrange(a as int, j - 1));
        j = j - 1;
    }
    if j > a {
        assert(sb.subrange(a as int, j as int).last() == 10u8);
        match try_slice(src, j, b) {
            Some(last) => display_width(last),
            None => 0,
        }
    } else {
        assert(sb.subrange(a as int, j as int).len() == 0);
        match try_slice(src, a, b) {
            Some(s) => col.saturating_add(display_width(s)),
            None => col,
        }
    }
}

/// The renderer proper, returning the produced bytes and the op-count tallies.
pub fn render_core(doc: &Doc, src: &str, width: usize) -> (r: (Vec<u8>, RenderStats))
    requires
        doc.wf(),
        spans_ok(doc.nodes_spec(), src.spec_bytes()),
    ensures
        ({
            let fin = run_spec(doc.nodes_spec(), doc.cids_spec(), src.spec_bytes(), width, init_state(doc.root_spec()));
            &&& r.0@ == fin.out
            &&& r.1.worklist_steps == fin.steps
            &&& r.1.fits_calls == fin.fits_calls
            &&& r.1.fits_chars == fin.fits_chars
        }),
{
    let ghost nodes = doc.nodes_spec();
    let ghost cids = doc.cids_spec();
    let ghost sb = src.spec_bytes();
    let bytes = src.as_bytes();
    assert(bytes@.len() == bytes.len());
    let mut out: Vec<u8> = Vec::new();
    let mut col: usize = 0;
    let mut pending: Option<Pending> = None;
    let mut stack: Vec<(i32, Mode, NodeId)> = Vec::new();
    stack.push((0i32, Mode::Break, doc.root()));
    let mut steps: usize = 0;
    let mut calls: usize = 0;
    let mut chars: usize = 0;
    let ghost target = run_spec(nodes, cids, sb, width, init_state(doc.root_spec()));
    assert(stack@ =~= seq![(0i32, Mode::Break, doc.root_spec())]);
    while stack.len() > 0
        invariant
            doc.wf(),
            nodes == doc.nodes_spec(),
            cids == doc.cids_spec(),
            sb == src.spec_bytes(),
            bytes@ == sb,
            sb.len() <= usize::MAX,
            spans_ok(nodes, sb),
            target == run_spec(nodes, cids, sb, width, init_state(doc.root_spec())),
            run_spec(
                nodes,
                cids,
                sb,
                width,
                RState {
                    out: out@,
                    col,
                    pending,
                    stack: stack@,
                    steps,
                    fits_calls: calls,
                    fits_chars: chars,
                },
            ) == target,
        decreases stack_weight(nodes, cids, stack@),
    {
        let ghost s = RState {
            out: out@,
            col,
            pending,
            stack: stack@,
            steps,
            fits_calls: calls,
            fits_chars: chars,
        };
        proof {
            lemma_step_weight(nodes, cids, sb, width, s);
        }
        let ghost next = step_spec(nodes, cids, sb, width, s);
        let (ind, mode, id) = stack.pop().unwrap();
        assert(stack@ =~= s.stack.drop_last());
        steps = steps.saturating_add(1);
        let n = node_or_nil(doc, id);
        proof {
            lemma_range_in_buffer(doc, id as int);
        }
        match n {
            DocNode::Nil => {},
            DocNode::Leaf(sp) => {
                proof {
                    assert(0 <= id < nodes.len());
                    assert(nodes[id as int] == n);
                }
                flush(&mut out, &mut pending, &mut col);
                let a = sp.start as usize;
                let b = a + sp.len as usize;
                let ghost base = out@;
                let mut k = a;
                while k < b
                    invariant
                        a <= k <= b <= sb.len(),
                        bytes@ == sb,
                        out@ == base + sb.subrange(a as int, k as int),
                    decreases b - k,
                {
                    out.push(bytes[k]);
                    k = k + 1;
                    assert(out@ =~= base + sb.subrange(a as int, k as int));
                }
                col = col.saturating_add(sp.width as usize);
            },
            DocNode::Verbatim(sp) => {
                proof {
                    assert(0 <= id < nodes.len());
                    assert(nodes[id as int] == n);
                }
                flush(&mut out, &mut pending, &mut col);
                let a = sp.start as usize;
                let b = a + sp.len as usize;
                let ghost base = out@;
                let mut k = a;
                while k < b
                    invariant
                        a <= k <= b <= sb.len(),
                        bytes@ == sb,
                        out@ == base + sb.subrange(a as int, k as int),
                    decreases b - k,
                {
                    out.push(bytes[k]);
                    k = k + 1;
                    assert(out@ =~= base + sb.subrange(a as int, k as int));
                }
                col = verbatim_column(src, bytes, sp, col);
            },
            DocNode::Line => {
                if mode == Mode::Flat {
                    flush(&mut out, &mut pending, &mut col);
                    out.push(32u8);
                    col = col.saturating_add(1);
                } else {
                    let blank = match pending {
                        Some(p) => p.blank,
                        None => false,
                    };
                    pending = Some(Pending { indent: ind, blank });
                    col = if ind < 0 { 0 } else { ind as usize };
                }
            },
            DocNode::Space => {
                if pending.is_none() {
                    out.push(32u8);
                    col = col.saturating_add(1);
                }
            },
            DocNode::SoftLine => {
                if mode == Mode::Break {
                    let blank = match pending {
                        Some(p) => p.blank,
                        None => false,
                    };
                    pending = Some(Pending { indent: ind, blank });
                    col = if ind < 0 { 0 } else { ind as usize };
                }
            },
            DocNode::Hardline => {
                let blank = match pending {
                    Some(p) => p.blank,
                    None => false,
                };
                pending = Some(Pending { indent: ind, blank });
                col = if ind < 0 { 0 } else { ind as usize };
            },
            DocNode::BlankLine => {
                if mode == Mode::Break {
                    pending = Some(Pending { indent: ind, blank: true });
                    col = if ind < 0 { 0 } else { ind as usize };
                }
            },
            DocNode::Nest { delta, child } => {
                push_children_rev(doc, &mut stack, child, ind.wrapping_add(delta), mode);
            },
            DocNode::Sequence(r) => {
                push_children_rev(doc, &mut stack, r, ind, mode);
            },
            DocNode::Group { child, forced_break } => {
                if forced_break {
                    push_children_rev(doc, &mut stack, child, ind, Mode::Break);
                } else {
                    let f = fits(doc, width.saturating_sub(col), ind, child, &stack);
                    calls = calls.saturating_add(1);
                    chars = chars.saturating_add(f.1);
                    let m = if f.0 { Mode::Flat } else { Mode::Break };
                    push_children_rev(doc, &mut stack, child, ind, m);
                }
            },
        }
        assert(RState {
            out: out@,
            col,
            pending,
            stack: stack@,
            steps,
            fits_calls: calls,
            fits_chars: chars,
        } == next);
    }
    (out, RenderStats { worklist_steps: steps, fits_chars: chars, fits_calls: calls })
}

/// Render `doc` against `src` (the source its leaf offsets index into) at the
/// target `width`. Total and linear in the document size.
pub fn render(doc: &Doc, src: &str, width: usize) -> (out: String)
    requires
        doc.wf(),
        spans_ok(doc.nodes_spec(), src.spec_bytes()),
    ensures
        ({
            let bytes = render_bytes(doc.nodes_spec(), doc.cids_spec(), doc.root_spec(), src.spec_bytes(), width);
            &&& vstd::utf8::valid_utf8(bytes) ==> vstd::utf8::encode_utf8(out@) == bytes
            &&& !vstd::utf8::valid_utf8(bytes) ==> out@ == Seq::<char>::empty()
        }),
{
    let (bytes, _) = render_core(doc, src, width);
    match string_from_utf8(bytes) {
        Some(s) => s,
        None => String::new(),
    }
}

/// [`render`] together with its op-count tallies. The work-list steps are the
/// size of the document tree (each occurrence of a node is visited once), the
/// same at every width.
pub fn render_with_stats(doc: &Doc, src: &str, width: usize) -> (r: (String, RenderStats))
    requires
        doc.wf(),
        spans_ok(doc.nodes_spec(), src.spec_bytes()),
    ensures
        ({
            let fin = run_spec(doc.nodes_spec(), doc.cids_spec(), src.spec_bytes(), width, init_state(doc.root_spec()));
            &&& vstd::utf8::valid_utf8(fin.out) ==> vstd::utf8::encode_utf8(r.0@) == fin.out
            &&& !vstd::utf8::valid_utf8(fin.out) ==> r.0@ == Seq::<char>::empty()
            &&& r.1.worklist_steps == fin.steps
            &&& r.1.fits_calls == fin.fits_calls
            &&& r.1.fits_chars == fin.fits_chars
            &&& r.1.worklist_steps as int == if node_size(doc.nodes_spec(), doc.cids_spec(), doc.root_spec() as int)
                > usize::MAX {
                usize::MAX as int
            } else {
                node_size(doc.nodes_spec(), doc.cids_spec(), doc.root_spec() as int) as int
            }
        }),
{
    let (bytes, stats) = render_core(doc, src, width);
    proof {
        let init = init_state(doc.root_spec());
        lemma_run_steps(doc.nodes_spec(), doc.cids_spec(), src.spec_bytes(), width, init);
        assert(init.stack.drop_last() =~= Seq::<(i32, Mode, NodeId)>::empty());
        assert(init.stack.len() == 1 && init.stack.last().2 == doc.root_spec());
        assert(stack_weight(doc.nodes_spec(), doc.cids_spec(), init.stack.drop_last()) == 0);
        assert(stack_weight(doc.nodes_spec(), doc.cids_spec(), init.stack) == node_size(
            doc.nodes_spec(),
            doc.cids_spec(),
            doc.root_spec() as int,
        ));
    }
    let s = match string_from_utf8(bytes) {
        Some(s) => s,
        None => String::new(),
    };
    (s, stats)
}

} // verus!
