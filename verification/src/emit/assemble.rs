//! The opener taxonomy. Per construct, a rule classifies each child into a small
//! [`Role`] set; one generic [`assemble`] then realizes the two layout
//! invariants — (1) a connective neck is never stranded on a bare line (it trails
//! its head, or leads with the first element riding it), and (2) every hang is a
//! relative `nest`, so indents compose additively. Whatever the roles, the
//! assembled node prints exactly the parts' text, in order: it only interposes
//! whitespace.

use super::spacing::Sep;
use super::{doc_ok, e_group, e_line, e_nest, e_nil, e_seq, e_softline, e_space, grows, ids_ok, Ctx};
use crate::doc::arena::{NodeId, Piece, Span};
use crate::doc::builder::{doc_layout, doc_text, items_layout, items_text, lemma_items_stable, settled, stable, DocBuilder};
use crate::doc::render::{lemma_render_only_lays_out, render_bytes, spans_bytes, strip_layout};
use vstd::prelude::*;

verus! {

/// Whether an opener is the light connective neck (`:-` / `:~` / conditional
/// `:`), which leads or trails, or a heavy bracket, which abuts its name and
/// opens an indented block with a dedented closer.
#[derive(Clone, Copy, Debug, PartialEq, Eq, Structural)]
pub enum OpenerKind {
    Connective,
    Bracket(Pad),
}

/// Whether a bracket pads its interior with a space when laid flat: set and
/// aggregate braces breathe (`{ S : … }`), term parens hug (`(…)`).
#[derive(Clone, Copy, Debug, PartialEq, Eq, Structural)]
pub enum Pad {
    Spaced,
    Tight,
}

/// The role a child plays in its construct's layout.
#[derive(Clone, Copy, Debug, PartialEq, Eq, Structural)]
pub enum Role {
    /// Lowered content: a head atom, a body literal, a term, an argument.
    Element,
    /// A connective neck or a bracket opener.
    Opener(OpenerKind),
    /// The closer matching a bracket opener.
    Closer,
    /// A separator (`,` `;` `|`): trails its element; the break point follows it.
    Separator(Sep),
    /// Glued terminal content (`.`, a weak-constraint `[w@p]`): abuts what precedes.
    Tail,
}

/// A construct child: its role and its already-lowered Doc node.
#[derive(Clone, Copy, Debug, PartialEq, Eq, Structural)]
pub struct Part {
    pub role: Role,
    pub doc: NodeId,
}

/// The four construct shapes, as index cuts into the parts.
#[derive(Clone, Copy, Debug, PartialEq, Eq, Structural)]
pub enum Spine {
    /// `:- body tail`: a headless neck at `neck` (= 0) leads; the body is
    /// `neck+1 .. tail`, the glued tail `tail ..`.
    LeadingNeck { neck: usize, tail: usize },
    /// `head :- body tail`: the head is `.. neck`, the body `neck+1 .. tail`.
    TrailingNeck { neck: usize, tail: usize },
    /// `name{ body } tail`: the name is `.. opener`, the body runs to the closer
    /// (or, closerless, to `tail`), the tail from `tail`.
    Bracketed { opener: usize, closer: Option<usize>, tail: usize },
    /// A pure separated sequence over all parts.
    Separated,
}

/// Which role a scan looks for.
#[derive(Clone, Copy, Debug, PartialEq, Eq, Structural)]
pub enum Which {
    Connective,
    Bracket,
    Closer,
}

/// Whether a role is of the kind sought.
pub open spec fn is_which(r: Role, w: Which) -> bool {
    match w {
        Which::Connective => r == Role::Opener(OpenerKind::Connective),
        Which::Bracket => r matches Role::Opener(OpenerKind::Bracket(_)),
        Which::Closer => r == Role::Closer,
    }
}

/// The first index at or after `k` whose role is of kind `w`, or the length.
pub open spec fn first_at(s: Seq<Part>, k: int, w: Which) -> int
    decreases s.len() - k,
{
    if k >= s.len() {
        s.len() as int
    } else if is_which(s[k].role, w) {
        k
    } else {
        first_at(s, k + 1, w)
    }
}

/// Where the trailing run of `Tail` parts of `s[lo..hi)` begins.
pub open spec fn tail_start(s: Seq<Part>, lo: int, hi: int) -> int
    decreases hi - lo,
{
    if hi <= lo {
        lo
    } else if s[hi - 1].role == Role::Tail {
        tail_start(s, lo, hi - 1)
    } else {
        hi
    }
}

/// The shape of a construct's parts: a connective neck (leading iff headless),
/// else a bracket, else a pure separated sequence.
pub open spec fn classify_spec(s: Seq<Part>) -> Spine {
    let n = s.len() as int;
    let c = first_at(s, 0, Which::Connective);
    if c < n {
        let t = tail_start(s, c + 1, n);
        if c == 0 {
            Spine::LeadingNeck { neck: c as usize, tail: t as usize }
        } else {
            Spine::TrailingNeck { neck: c as usize, tail: t as usize }
        }
    } else {
        let o = first_at(s, 0, Which::Bracket);
        if o < n {
            let cl = first_at(s, o + 1, Which::Closer);
            if cl < n {
                Spine::Bracketed { opener: o as usize, closer: Some(cl as usize), tail: (cl + 1) as usize }
            } else {
                Spine::Bracketed { opener: o as usize, closer: None, tail: tail_start(s, o + 1, n) as usize }
            }
        } else {
            Spine::Separated
        }
    }
}

/// The cuts of a shape tile the parts in source order: every part lands in
/// exactly one field, the openers and closer are of their kind, and a tail run
/// holds only `Tail` parts.
pub open spec fn spine_wf(s: Seq<Part>, sp: Spine) -> bool {
    let n = s.len() as int;
    match sp {
        Spine::LeadingNeck { neck, tail } => {
            &&& neck == 0
            &&& neck + 1 <= tail <= n
            &&& s[neck as int].role == Role::Opener(OpenerKind::Connective)
            &&& forall|k: int| tail <= k < n ==> (#[trigger] s[k]).role == Role::Tail
        },
        Spine::TrailingNeck { neck, tail } => {
            &&& 0 < neck
            &&& neck + 1 <= tail <= n
            &&& s[neck as int].role == Role::Opener(OpenerKind::Connective)
            &&& forall|k: int| 0 <= k < neck ==> (#[trigger] s[k]).role != Role::Opener(OpenerKind::Connective)
            &&& forall|k: int| tail <= k < n ==> (#[trigger] s[k]).role == Role::Tail
        },
        Spine::Bracketed { opener, closer, tail } => {
            &&& opener + 1 <= tail <= n
            &&& s[opener as int].role matches Role::Opener(OpenerKind::Bracket(_))
            &&& match closer {
                Some(c) => opener < c && tail == c + 1 && s[c as int].role == Role::Closer,
                None => forall|k: int| tail <= k < n ==> (#[trigger] s[k]).role == Role::Tail,
            }
        },
        Spine::Separated => true,
    }
}

/// `first_at` lands on a part of the kind sought, or runs off the end.
pub proof fn lemma_first_at(s: Seq<Part>, k: int, w: Which)
    requires
        0 <= k,
    ensures
        k <= first_at(s, k, w) <= s.len() || (k > s.len() && first_at(s, k, w) == s.len()),
        first_at(s, k, w) < s.len() ==> is_which(s[first_at(s, k, w)].role, w),
        forall|j: int| k <= j < first_at(s, k, w) ==> !is_which(#[trigger] s[j].role, w),
    decreases s.len() - k,
{
    if k < s.len() && !is_which(s[k].role, w) {
        lemma_first_at(s, k + 1, w);
    }
}

/// The tail run begins inside its range and holds only `Tail` parts.
pub proof fn lemma_tail_start(s: Seq<Part>, lo: int, hi: int)
    requires
        0 <= lo <= hi <= s.len(),
    ensures
        lo <= tail_start(s, lo, hi) <= hi,
        forall|k: int| tail_start(s, lo, hi) <= k < hi ==> (#[trigger] s[k]).role == Role::Tail,
    decreases hi - lo,
{
    if lo < hi && s[hi - 1].role == Role::Tail {
        lemma_tail_start(s, lo, hi - 1);
    }
}

/// The shape recovered from any parts tiles them in order.
pub proof fn lemma_classify_tiles(s: Seq<Part>)
    requires
        s.len() <= usize::MAX,
    ensures
        spine_wf(s, classify_spec(s)),
{
    let n = s.len() as int;
    lemma_first_at(s, 0, Which::Connective);
    let c = first_at(s, 0, Which::Connective);
    if c < n {
        lemma_tail_start(s, c + 1, n);
    } else {
        lemma_first_at(s, 0, Which::Bracket);
        let o = first_at(s, 0, Which::Bracket);
        if o < n {
            lemma_first_at(s, o + 1, Which::Closer);
            lemma_tail_start(s, o + 1, n);
        }
    }
}

/// Index of the first part at or after `from` whose role is of kind `w`, or the
/// length.
pub fn position(parts: &[Part], from: usize, w: Which) -> (r: usize)
    ensures
        r == first_at(parts@, from as int, w),
{
    let mut k = from;
    while k < parts.len()
        invariant
            from <= k,
            first_at(parts@, from as int, w) == first_at(parts@, k as int, w),
        decreases parts@.len() - k,
    {
        let hit = match w {
            Which::Connective => parts[k].role == Role::Opener(OpenerKind::Connective),
            Which::Bracket => match parts[k].role {
                Role::Opener(OpenerKind::Bracket(_)) => true,
                _ => false,
            },
            Which::Closer => parts[k].role == Role::Closer,
        };
        if hit {
            return k;
        }
        k = k + 1;
    }
    assert(first_at(parts@, k as int, w) == parts@.len());
    parts.len()
}

/// Where the trailing run of `Tail` parts of `parts[lo..hi)` begins.
pub fn split_tail(parts: &[Part], lo: usize, hi: usize) -> (r: usize)
    requires
        lo <= hi <= parts@.len(),
    ensures
        r == tail_start(parts@, lo as int, hi as int),
{
    let mut j = hi;
    while j > lo && parts[j - 1].role == Role::Tail
        invariant
            lo <= j <= hi <= parts@.len(),
            tail_start(parts@, lo as int, hi as int) == tail_start(parts@, lo as int, j as int),
        decreases j - lo,
    {
        j = j - 1;
    }
    j
}

/// Recover the shape of a construct's parts. Total over any parts.
pub fn classify(parts: &[Part]) -> (r: Spine)
    ensures
        r == classify_spec(parts@),
        spine_wf(parts@, r),
{
    assert(parts@.len() == parts.len());
    proof {
        lemma_classify_tiles(parts@);
    }
    let n = parts.len();
    let c = position(parts, 0, Which::Connective);
    if c < n {
        let t = split_tail(parts, c + 1, n);
        if c == 0 {
            Spine::LeadingNeck { neck: c, tail: t }
        } else {
            Spine::TrailingNeck { neck: c, tail: t }
        }
    } else {
        let o = position(parts, 0, Which::Bracket);
        if o < n {
            let cl = position(parts, o + 1, Which::Closer);
            if cl < n {
                Spine::Bracketed { opener: o, closer: Some(cl), tail: cl + 1 }
            } else {
                Spine::Bracketed { opener: o, closer: None, tail: split_tail(parts, o + 1, n) }
            }
        } else {
            Spine::Separated
        }
    }
}

/// Every part's doc names a node of `b`.
pub open spec fn parts_ok(s: Seq<Part>, b: DocBuilder) -> bool {
    forall|k: int| 0 <= k < s.len() ==> (#[trigger] s[k]).doc < b.nodes_spec().len()
}

/// The texts of the parts `s[lo..hi)` in `b`, concatenated in order.
pub open spec fn parts_text(b: DocBuilder, s: Seq<Part>, lo: int, hi: int) -> Seq<Span>
    decreases hi - lo,
{
    if hi <= lo {
        Seq::empty()
    } else {
        parts_text(b, s, lo, hi - 1) + doc_text(b, s[hi - 1].doc as int)
    }
}

/// The text of consecutive part runs is the text of their union.
pub proof fn lemma_parts_text_split(b: DocBuilder, s: Seq<Part>, lo: int, mid: int, hi: int)
    requires
        lo <= mid <= hi,
    ensures
        parts_text(b, s, lo, hi) == parts_text(b, s, lo, mid) + parts_text(b, s, mid, hi),
    decreases hi - mid,
{
    if mid < hi {
        lemma_parts_text_split(b, s, lo, mid, hi - 1);
        assert(parts_text(b, s, lo, hi) =~= parts_text(b, s, lo, mid) + parts_text(b, s, mid, hi));
    } else {
        assert(parts_text(b, s, mid, hi) =~= Seq::<Span>::empty());
        assert(parts_text(b, s, lo, hi) =~= parts_text(b, s, lo, mid) + parts_text(b, s, mid, hi));
    }
}

/// Parts that name nodes of `b0` have the same text in any `b1` that keeps
/// the text of `b0`'s nodes.
pub proof fn lemma_parts_text_stable(b0: DocBuilder, b1: DocBuilder, s: Seq<Part>, lo: int, hi: int)
    requires
        stable(b0, b1),
        parts_ok(s, b0),
        0 <= lo,
        hi <= s.len(),
    ensures
        parts_text(b1, s, lo, hi) == parts_text(b0, s, lo, hi),
    decreases hi - lo,
{
    if lo < hi {
        assert(s[hi - 1].doc < b0.nodes_spec().len());
        lemma_parts_text_stable(b0, b1, s, lo, hi - 1);
    }
}

/// The layouts of the parts `s[lo..hi)` in `b`, concatenated in order.
pub open spec fn parts_layout(b: DocBuilder, s: Seq<Part>, lo: int, hi: int) -> Seq<Piece>
    decreases hi - lo,
{
    if hi <= lo {
        Seq::empty()
    } else {
        parts_layout(b, s, lo, hi - 1) + doc_layout(b, s[hi - 1].doc as int)
    }
}

/// Parts that name nodes of `b0` have the same layout in any `b1` that keeps
/// the layout of `b0`'s nodes.
pub proof fn lemma_parts_layout_stable(b0: DocBuilder, b1: DocBuilder, s: Seq<Part>, lo: int, hi: int)
    requires
        stable(b0, b1),
        parts_ok(s, b0),
        0 <= lo,
        hi <= s.len(),
    ensures
        parts_layout(b1, s, lo, hi) == parts_layout(b0, s, lo, hi),
    decreases hi - lo,
{
    if lo < hi {
        assert(s[hi - 1].doc < b0.nodes_spec().len());
        lemma_parts_layout_stable(b0, b1, s, lo, hi - 1);
    }
}

/// Parts with the same docs have the same layout, whatever their roles.
pub proof fn lemma_parts_layout_docs(b: DocBuilder, s1: Seq<Part>, s2: Seq<Part>, lo: int, hi: int)
    requires
        forall|k: int| lo <= k < hi ==> (#[trigger] s1[k]).doc == s2[k].doc,
    ensures
        parts_layout(b, s1, lo, hi) == parts_layout(b, s2, lo, hi),
    decreases hi - lo,
{
    if lo < hi {
        assert(s1[hi - 1].doc == s2[hi - 1].doc);
        lemma_parts_layout_docs(b, s1, s2, lo, hi - 1);
    }
}

/// Appending a part appends its Doc's layout.
pub proof fn lemma_parts_layout_push(b: DocBuilder, s: Seq<Part>, p: Part)
    ensures
        parts_layout(b, s.push(p), 0, s.len() + 1int) == parts_layout(b, s, 0, s.len() as int) + doc_layout(
            b,
            p.doc as int,
        ),
{
    lemma_parts_layout_docs(b, s.push(p), s, 0, s.len() as int);
    assert(s.push(p)[s.len() as int] == p);
}

/// No part opens a neck or a bracket.
pub open spec fn no_openers(s: Seq<Part>) -> bool {
    forall|q: int| 0 <= q < s.len() ==> !((#[trigger] s[q]).role is Opener)
}

/// With no part of the kind sought from `k` on, the scan runs off the end.
pub proof fn lemma_first_at_none(s: Seq<Part>, k: int, w: Which)
    requires
        0 <= k,
        forall|q: int| k <= q < s.len() ==> !is_which((#[trigger] s[q]).role, w),
    ensures
        first_at(s, k, w) == s.len(),
    decreases s.len() - k,
{
    if k < s.len() {
        assert(!is_which(s[k].role, w));
        lemma_first_at_none(s, k + 1, w);
    }
}

/// Parts without openers form a pure separated sequence.
pub proof fn lemma_separated_spine(s: Seq<Part>)
    requires
        no_openers(s),
    ensures
        classify_spec(s) == Spine::Separated,
{
    assert forall|q: int| 0 <= q < s.len() implies !is_which((#[trigger] s[q]).role, Which::Connective) by {
        assert(!(s[q].role is Opener));
    }
    assert forall|q: int| 0 <= q < s.len() implies !is_which((#[trigger] s[q]).role, Which::Bracket) by {
        assert(!(s[q].role is Opener));
    }
    lemma_first_at_none(s, 0, Which::Connective);
    lemma_first_at_none(s, 0, Which::Bracket);
}

/// The layout of consecutive part runs is the layout of their union.
pub proof fn lemma_parts_layout_split(b: DocBuilder, s: Seq<Part>, lo: int, mid: int, hi: int)
    requires
        lo <= mid <= hi,
    ensures
        parts_layout(b, s, lo, hi) == parts_layout(b, s, lo, mid) + parts_layout(b, s, mid, hi),
    decreases hi - mid,
{
    if mid < hi {
        lemma_parts_layout_split(b, s, lo, mid, hi - 1);
        assert(parts_layout(b, s, lo, hi) =~= parts_layout(b, s, lo, mid) + parts_layout(b, s, mid, hi));
    } else {
        assert(parts_layout(b, s, mid, hi) =~= Seq::<Piece>::empty());
        assert(parts_layout(b, s, lo, hi) =~= parts_layout(b, s, lo, mid) + parts_layout(b, s, mid, hi));
    }
}

/// The layout of one part.
pub proof fn lemma_parts_layout_one(b: DocBuilder, s: Seq<Part>, k: int)
    ensures
        parts_layout(b, s, k, k + 1) == doc_layout(b, s[k].doc as int),
{
    assert(parts_layout(b, s, k, k) =~= Seq::<Piece>::empty());
    assert(parts_layout(b, s, k, k + 1) =~= doc_layout(b, s[k].doc as int));
}

/// Appending an item appends its layout.
pub proof fn lemma_items_layout_push(b: DocBuilder, s: Seq<NodeId>, x: NodeId)
    ensures
        items_layout(b, s.push(x)) == items_layout(b, s) + doc_layout(b, x as int),
{
    assert(s.push(x).drop_last() =~= s);
    assert(s.push(x).last() == x);
}

/// The layout of a three-element concatenation.
pub proof fn lemma_items_layout_three(b: DocBuilder, x0: NodeId, x1: NodeId, x2: NodeId)
    ensures
        items_layout(b, seq![x0, x1, x2]) == doc_layout(b, x0 as int) + doc_layout(b, x1 as int) + doc_layout(
            b,
            x2 as int,
        ),
{
    let e = Seq::<NodeId>::empty();
    assert(items_layout(b, e) =~= Seq::<Piece>::empty());
    lemma_items_layout_push(b, e, x0);
    assert(e.push(x0) =~= seq![x0]);
    lemma_items_layout_push(b, seq![x0], x1);
    assert(seq![x0].push(x1) =~= seq![x0, x1]);
    lemma_items_layout_push(b, seq![x0, x1], x2);
    assert(seq![x0, x1].push(x2) =~= seq![x0, x1, x2]);
    assert(items_layout(b, seq![x0, x1, x2]) =~= doc_layout(b, x0 as int) + doc_layout(b, x1 as int) + doc_layout(
        b,
        x2 as int,
    ));
}

/// The layout of a four-element concatenation.
pub proof fn lemma_items_layout_four(b: DocBuilder, x0: NodeId, x1: NodeId, x2: NodeId, x3: NodeId)
    ensures
        items_layout(b, seq![x0, x1, x2, x3]) == doc_layout(b, x0 as int) + doc_layout(b, x1 as int) + doc_layout(
            b,
            x2 as int,
        ) + doc_layout(b, x3 as int),
{
    lemma_items_layout_three(b, x0, x1, x2);
    lemma_items_layout_push(b, seq![x0, x1, x2], x3);
    assert(seq![x0, x1, x2].push(x3) =~= seq![x0, x1, x2, x3]);
}

/// The layout of a six-element concatenation.
pub proof fn lemma_items_layout_six(
    b: DocBuilder,
    x0: NodeId,
    x1: NodeId,
    x2: NodeId,
    x3: NodeId,
    x4: NodeId,
    x5: NodeId,
)
    ensures
        items_layout(b, seq![x0, x1, x2, x3, x4, x5]) == doc_layout(b, x0 as int) + doc_layout(b, x1 as int)
            + doc_layout(b, x2 as int) + doc_layout(b, x3 as int) + doc_layout(b, x4 as int) + doc_layout(
            b,
            x5 as int,
        ),
{
    lemma_items_layout_four(b, x0, x1, x2, x3);
    lemma_items_layout_push(b, seq![x0, x1, x2, x3], x4);
    assert(seq![x0, x1, x2, x3].push(x4) =~= seq![x0, x1, x2, x3, x4]);
    lemma_items_layout_push(b, seq![x0, x1, x2, x3, x4], x5);
    assert(seq![x0, x1, x2, x3, x4].push(x5) =~= seq![x0, x1, x2, x3, x4, x5]);
}

/// No part is a connective neck.
pub open spec fn no_necks(s: Seq<Part>) -> bool {
    forall|q: int| 0 <= q < s.len() ==> (#[trigger] s[q]).role != Role::Opener(OpenerKind::Connective)
}

/// Parts without a neck are bracketed or a pure separated sequence.
pub proof fn lemma_neckless_spine(s: Seq<Part>)
    requires
        no_necks(s),
    ensures
        classify_spec(s) is Bracketed || classify_spec(s) is Separated,
{
    assert forall|q: int| 0 <= q < s.len() implies !is_which((#[trigger] s[q]).role, Which::Connective) by {
        assert(s[q].role != Role::Opener(OpenerKind::Connective));
    }
    lemma_first_at_none(s, 0, Which::Connective);
}

/// The layout of a bracketed construct's pieces adds up to the layout of its
/// parts, as [`lemma_bracket_accounting`] adds up their text.
pub proof fn lemma_bracket_layout_accounting(b: DocBuilder, s: Seq<Part>, opener: int, closer: Option<usize>, tail: int)
    requires
        0 <= opener,
        opener + 1 <= tail <= s.len(),
        closer matches Some(c) ==> opener < c && tail == c + 1,
    ensures
        ({
            let body_end = match closer {
                Some(c) => c as int,
                None => tail,
            };
            let closer_layout = match closer {
                Some(c) => doc_layout(b, s[c as int].doc as int),
                None => Seq::<Piece>::empty(),
            };
            parts_layout(b, s, 0, s.len() as int) == parts_layout(b, s, 0, opener) + doc_layout(b, s[opener].doc as int)
                + parts_layout(b, s, opener + 1, body_end) + closer_layout + parts_layout(b, s, tail, s.len() as int)
        }),
{
    let n = s.len() as int;
    let body_end = match closer {
        Some(c) => c as int,
        None => tail,
    };
    lemma_parts_layout_split(b, s, 0, opener, n);
    lemma_parts_layout_split(b, s, opener, opener + 1, n);
    lemma_parts_layout_one(b, s, opener);
    lemma_parts_layout_split(b, s, opener + 1, body_end, n);
    lemma_parts_layout_split(b, s, body_end, tail, n);
    match closer {
        Some(c) => {
            lemma_parts_layout_one(b, s, c as int);
        },
        None => {
            assert(parts_layout(b, s, body_end, tail) =~= Seq::<Piece>::empty());
        },
    }
    let closer_layout = match closer {
        Some(c) => doc_layout(b, s[c as int].doc as int),
        None => Seq::<Piece>::empty(),
    };
    assert(parts_layout(b, s, 0, n) =~= parts_layout(b, s, 0, opener) + doc_layout(b, s[opener].doc as int)
        + parts_layout(b, s, opener + 1, body_end) + closer_layout + parts_layout(b, s, tail, n));
}

/// The text of one part.
pub proof fn lemma_parts_text_one(b: DocBuilder, s: Seq<Part>, k: int)
    ensures
        parts_text(b, s, k, k + 1) == doc_text(b, s[k].doc as int),
{
    assert(parts_text(b, s, k, k) =~= Seq::<Span>::empty());
    assert(parts_text(b, s, k, k + 1) =~= doc_text(b, s[k].doc as int));
}

/// The text of a two-element concatenation.
pub proof fn lemma_items_text_2(b: DocBuilder, x0: NodeId, x1: NodeId)
    ensures
        items_text(b, seq![x0, x1]) == doc_text(b, x0 as int) + doc_text(b, x1 as int),
{
    assert(seq![x0, x1].drop_last() =~= seq![x0]);
    assert(seq![x0].drop_last() =~= Seq::<NodeId>::empty());
    assert(items_text(b, Seq::<NodeId>::empty()) == Seq::<Span>::empty());
    assert(seq![x0].last() == x0);
    assert(items_text(b, seq![x0]) == items_text(b, Seq::<NodeId>::empty()) + doc_text(b, x0 as int));
    assert(items_text(b, seq![x0]) =~= doc_text(b, x0 as int));
    assert(seq![x0, x1].last() == x1);
}

/// The text of a three-element concatenation.
pub proof fn lemma_items_text_3(b: DocBuilder, x0: NodeId, x1: NodeId, x2: NodeId)
    ensures
        items_text(b, seq![x0, x1, x2]) == doc_text(b, x0 as int) + doc_text(b, x1 as int) + doc_text(b, x2 as int),
{
    assert(seq![x0, x1, x2].last() == x2);
    assert(seq![x0, x1, x2].drop_last() =~= seq![x0, x1]);
    lemma_items_text_2(b, x0, x1);
}

/// The text of a four-element concatenation.
pub proof fn lemma_items_text_4(b: DocBuilder, x0: NodeId, x1: NodeId, x2: NodeId, x3: NodeId)
    ensures
        items_text(b, seq![x0, x1, x2, x3]) == doc_text(b, x0 as int) + doc_text(b, x1 as int) + doc_text(b, x2 as int)
            + doc_text(b, x3 as int),
{
    assert(seq![x0, x1, x2, x3].last() == x3);
    assert(seq![x0, x1, x2, x3].drop_last() =~= seq![x0, x1, x2]);
    lemma_items_text_3(b, x0, x1, x2);
}

/// The text of a five-element concatenation.
pub proof fn lemma_items_text_5(b: DocBuilder, x0: NodeId, x1: NodeId, x2: NodeId, x3: NodeId, x4: NodeId)
    ensures
        items_text(b, seq![x0, x1, x2, x3, x4]) == doc_text(b, x0 as int) + doc_text(b, x1 as int) + doc_text(
            b,
            x2 as int,
        ) + doc_text(b, x3 as int) + doc_text(b, x4 as int),
{
    assert(seq![x0, x1, x2, x3, x4].last() == x4);
    assert(seq![x0, x1, x2, x3, x4].drop_last() =~= seq![x0, x1, x2, x3]);
    lemma_items_text_4(b, x0, x1, x2, x3);
}

/// The text of a six-element concatenation.
pub proof fn lemma_items_text_6(
    b: DocBuilder,
    x0: NodeId,
    x1: NodeId,
    x2: NodeId,
    x3: NodeId,
    x4: NodeId,
    x5: NodeId,
)
    ensures
        items_text(b, seq![x0, x1, x2, x3, x4, x5]) == doc_text(b, x0 as int) + doc_text(b, x1 as int) + doc_text(
            b,
            x2 as int,
        ) + doc_text(b, x3 as int) + doc_text(b, x4 as int) + doc_text(b, x5 as int),
{
    assert(seq![x0, x1, x2, x3, x4, x5].last() == x5);
    assert(seq![x0, x1, x2, x3, x4, x5].drop_last() =~= seq![x0, x1, x2, x3, x4]);
    lemma_items_text_5(b, x0, x1, x2, x3, x4);
}

/// `p` is what `l` lays out first.
pub open spec fn lays_first(l: Seq<Piece>, p: Seq<Piece>) -> bool {
    p.len() <= l.len() && l.subrange(0, p.len() as int) == p
}

/// What a layout lays out first, its extensions lay out first too.
pub proof fn lemma_lays_first_concat(a: Seq<Piece>, c: Seq<Piece>, p: Seq<Piece>)
    requires
        lays_first(a, p),
    ensures
        lays_first(a + c, p),
{
    assert((a + c).subrange(0, p.len() as int) =~= a.subrange(0, p.len() as int));
}

/// Laying out first is transitive.
pub proof fn lemma_lays_first_trans(l: Seq<Piece>, a: Seq<Piece>, p: Seq<Piece>)
    requires
        lays_first(l, a),
        lays_first(a, p),
    ensures
        lays_first(l, p),
{
    assert(l.subrange(0, p.len() as int) =~= a.subrange(0, p.len() as int));
}

/// A layout lays itself out first.
pub proof fn lemma_lays_first_self(l: Seq<Piece>)
    ensures
        lays_first(l, l),
{
    assert(l.subrange(0, l.len() as int) =~= l);
}

/// A concatenation lays out its first item, then the rest.
pub proof fn lemma_items_layout_cons(b: DocBuilder, s: Seq<NodeId>)
    requires
        s.len() > 0,
    ensures
        items_layout(b, s) == doc_layout(b, s[0] as int) + items_layout(b, s.drop_first()),
    decreases s.len(),
{
    if s.len() == 1 {
        assert(s.drop_last() =~= Seq::<NodeId>::empty());
        assert(s.drop_first() =~= Seq::<NodeId>::empty());
        assert(items_layout(b, Seq::<NodeId>::empty()) == Seq::<Piece>::empty());
        assert(items_layout(b, s) == items_layout(b, s.drop_last()) + doc_layout(b, s.last() as int));
        assert(items_layout(b, s) =~= doc_layout(b, s[0] as int) + items_layout(b, s.drop_first()));
    } else {
        lemma_items_layout_cons(b, s.drop_last());
        assert(s.drop_last()[0] == s[0]);
        assert(s.drop_last().drop_first() =~= s.drop_first().drop_last());
        assert(s.drop_first().last() == s.last());
        assert(items_layout(b, s.drop_first()) == items_layout(b, s.drop_first().drop_last()) + doc_layout(
            b,
            s.drop_first().last() as int,
        ));
        assert(items_layout(b, s) =~= doc_layout(b, s[0] as int) + items_layout(b, s.drop_first()));
    }
}

/// A concatenation lays out its first item first.
pub proof fn lemma_items_layout_first(b: DocBuilder, s: Seq<NodeId>)
    requires
        s.len() > 0,
    ensures
        lays_first(items_layout(b, s), doc_layout(b, s[0] as int)),
{
    lemma_items_layout_cons(b, s);
    lemma_lays_first_self(doc_layout(b, s[0] as int));
    lemma_lays_first_concat(doc_layout(b, s[0] as int), items_layout(b, s.drop_first()), doc_layout(b, s[0] as int));
}

/// A concatenation of three or more items lays out its first three first.
pub proof fn lemma_items_layout_first3(b: DocBuilder, s: Seq<NodeId>)
    requires
        s.len() >= 3,
    ensures
        lays_first(
            items_layout(b, s),
            doc_layout(b, s[0] as int) + doc_layout(b, s[1] as int) + doc_layout(b, s[2] as int),
        ),
{
    let s1 = s.drop_first();
    let s2 = s1.drop_first();
    lemma_items_layout_cons(b, s);
    lemma_items_layout_cons(b, s1);
    lemma_items_layout_cons(b, s2);
    assert(s1[0] == s[1]);
    assert(s2[0] == s[2]);
    let p = doc_layout(b, s[0] as int) + doc_layout(b, s[1] as int) + doc_layout(b, s[2] as int);
    assert(items_layout(b, s) =~= p + items_layout(b, s2.drop_first()));
    lemma_lays_first_self(p);
    lemma_lays_first_concat(p, items_layout(b, s2.drop_first()), p);
}

/// A concatenation whose first item lays out nothing lays out its second first.
pub proof fn lemma_items_layout_second(b: DocBuilder, s: Seq<NodeId>)
    requires
        s.len() > 1,
        doc_layout(b, s[0] as int) == Seq::<Piece>::empty(),
    ensures
        lays_first(items_layout(b, s), doc_layout(b, s[1] as int)),
{
    lemma_items_layout_cons(b, s);
    assert(s.drop_first()[0] == s[1]);
    lemma_items_layout_first(b, s.drop_first());
    assert(Seq::<Piece>::empty() + items_layout(b, s.drop_first()) =~= items_layout(b, s.drop_first()));
}

/// Concatenate the docs of `parts[lo..hi)` in order (`nil` for none).
pub fn concat(ctx: &Ctx, b: &mut DocBuilder, parts: &[Part], lo: usize, hi: usize) -> (id: NodeId)
    requires
        doc_ok(*old(b), ctx.bytes@),
        parts_ok(parts@, *old(b)),
        lo <= hi <= parts@.len(),
    ensures
        doc_ok(*final(b), ctx.bytes@),
        grows(*old(b), *final(b)),
        id < final(b).nodes_spec().len(),
        settled(*old(b), *final(b)),
        !final(b).full_spec() ==> doc_text(*final(b), id as int) == parts_text(*old(b), parts@, lo as int, hi as int),
        !final(b).full_spec() && lo < hi ==> lays_first(
            doc_layout(*final(b), id as int),
            doc_layout(*old(b), parts@[lo as int].doc as int),
        ),
        !final(b).full_spec() && lo == hi ==> doc_layout(*final(b), id as int) == Seq::<Piece>::empty(),
        !final(b).full_spec() ==> doc_layout(*final(b), id as int) == parts_layout(*old(b), parts@, lo as int, hi as int),
{
    let mut items: Vec<NodeId> = Vec::new();
    let mut k = lo;
    assert(items_layout(*b, items@) =~= Seq::<Piece>::empty());
    while k < hi
        invariant
            lo <= k <= hi <= parts@.len(),
            parts_ok(parts@, *b),
            ids_ok(items@, *b),
            items_layout(*b, items@) == parts_layout(*b, parts@, lo as int, k as int),
            items_text(*b, items@) == parts_text(*b, parts@, lo as int, k as int),
            items@.len() == k - lo,
            k > lo ==> items@[0] == parts@[lo as int].doc,
            *b == *old(b),
        decreases hi - k,
    {
        let ghost i0 = items@;
        items.push(parts[k].doc);
        proof {
            assert(items@.drop_last() =~= i0);
            assert(items@.last() == parts@[k as int].doc);
            lemma_items_layout_push(*b, i0, parts@[k as int].doc);
        }
        k = k + 1;
    }
    let id = e_seq(ctx, b, items.as_slice());
    proof {
        if !b.full_spec() {
            if lo < hi {
                lemma_items_layout_first(*old(b), items@);
            } else {
                assert(items@ =~= Seq::<NodeId>::empty());
                assert(items_layout(*old(b), items@) == Seq::<Piece>::empty());
            }
        }
    }
    id
}

/// A separated sequence over `parts[lo..hi)`: each separator trails its element
/// and is followed by the break its `Sep` selects (`line` spaced, `softline`
/// tight). The caller wraps it in the group / nest that scopes the break.
pub fn separated(ctx: &Ctx, b: &mut DocBuilder, parts: &[Part], lo: usize, hi: usize) -> (id: NodeId)
    requires
        doc_ok(*old(b), ctx.bytes@),
        parts_ok(parts@, *old(b)),
        lo <= hi <= parts@.len(),
    ensures
        doc_ok(*final(b), ctx.bytes@),
        grows(*old(b), *final(b)),
        id < final(b).nodes_spec().len(),
        settled(*old(b), *final(b)),
        !final(b).full_spec() ==> doc_text(*final(b), id as int) == parts_text(*old(b), parts@, lo as int, hi as int),
        !final(b).full_spec() && lo < hi ==> lays_first(
            doc_layout(*final(b), id as int),
            doc_layout(*old(b), parts@[lo as int].doc as int),
        ),
        !final(b).full_spec() ==> doc_layout(*final(b), id as int) == parts_layout(
            *old(b),
            parts@,
            lo as int,
            hi as int,
        ),
{
    let mut items: Vec<NodeId> = Vec::new();
    let mut k = lo;
    assert(items_layout(*b, items@) =~= Seq::<Piece>::empty());
    while k < hi
        invariant
            lo <= k <= hi <= parts@.len(),
            !b.full_spec() ==> items_layout(*b, items@) == parts_layout(*old(b), parts@, lo as int, k as int),
            doc_ok(*b, ctx.bytes@),
            grows(*old(b), *b),
            parts_ok(parts@, *old(b)),
            parts_ok(parts@, *b),
            ids_ok(items@, *b),
            settled(*old(b), *b),
            !b.full_spec() ==> items_text(*b, items@) == parts_text(*old(b), parts@, lo as int, k as int),
            k > lo ==> items@.len() > 0 && items@[0] == parts@[lo as int].doc,
            k == lo ==> items@.len() == 0,
        decreases hi - k,
    {
        let part = parts[k];
        let ghost i0 = items@;
        let ghost b0 = *b;
        items.push(part.doc);
        proof {
            assert(items@.drop_last() =~= i0);
            assert(items@.last() == part.doc);
            if i0.len() > 0 {
                assert(items@[0] == i0[0]);
            }
            assert(part.doc < old(b).nodes_spec().len());
            assert(doc_text(b0, part.doc as int) == doc_text(*old(b), part.doc as int));
            assert(doc_layout(b0, part.doc as int) == doc_layout(*old(b), part.doc as int));
        }
        match part.role {
            Role::Separator(sep) => {
                let ghost i1 = items@;
                let brk = match sep {
                    Sep::Spaced => e_line(ctx, b),
                    Sep::Tight => e_softline(ctx, b),
                };
                items.push(brk);
                proof {
                    assert(items@.drop_last() =~= i1);
                    assert(items@.last() == brk);
                    assert(items@[0] == i1[0]);
                    if !b.full_spec() {
                        lemma_items_stable(b0, *b, i1);
                        assert(items_text(*b, items@) =~= items_text(b0, i1));
                        assert(items_layout(*b, items@) =~= items_layout(b0, i1));
                    }
                }
            },
            _ => {},
        }
        k = k + 1;
    }
    let ghost bf = *b;
    let id = e_seq(ctx, b, items.as_slice());
    proof {
        if !b.full_spec() && lo < hi {
            lemma_items_layout_first(bf, items@);
            assert(parts@[lo as int].doc < old(b).nodes_spec().len());
            assert(doc_layout(bf, parts@[lo as int].doc as int) == doc_layout(*old(b), parts@[lo as int].doc as int));
        }
    }
    id
}

/// The break padding a bracket's interior: a `line` for a spaced brace, a
/// `softline` for a tight paren.
pub fn pad_break(ctx: &Ctx, b: &mut DocBuilder, pad: Pad) -> (id: NodeId)
    requires
        doc_ok(*old(b), ctx.bytes@),
    ensures
        doc_ok(*final(b), ctx.bytes@),
        grows(*old(b), *final(b)),
        id < final(b).nodes_spec().len(),
        settled(*old(b), *final(b)),
        !final(b).full_spec() ==> doc_text(*final(b), id as int) == Seq::<Span>::empty(),
        !final(b).full_spec() ==> doc_layout(*final(b), id as int) == Seq::<Piece>::empty(),
{
    match pad {
        Pad::Spaced => e_line(ctx, b),
        Pad::Tight => e_softline(ctx, b),
    }
}

/// Trailing connective neck (`head :- body`, `literal : condition`): the head
/// (its own group), a non-breaking space, the neck, then the body dropped to a
/// relative `indent` block, the tail nested with it; all one group. An empty body
/// hangs nothing (`head :`), with a space before the tail only when the neck
/// would fuse with it.
#[verifier::rlimit(100)]
#[verifier::spinoff_prover]
pub fn trailing_neck(
    ctx: &Ctx,
    b: &mut DocBuilder,
    parts: &[Part],
    neck: usize,
    tail: usize,
    indent: i32,
    neck_tail_fuses: bool,
) -> (id: NodeId)
    requires
        doc_ok(*old(b), ctx.bytes@),
        parts_ok(parts@, *old(b)),
        neck + 1 <= tail <= parts@.len(),
    ensures
        doc_ok(*final(b), ctx.bytes@),
        grows(*old(b), *final(b)),
        id < final(b).nodes_spec().len(),
        settled(*old(b), *final(b)),
        !final(b).full_spec() ==> doc_text(*final(b), id as int) == parts_text(
            *old(b),
            parts@,
            0,
            parts@.len() as int,
        ),
        !final(b).full_spec() && 0 < neck ==> lays_first(
            doc_layout(*final(b), id as int),
            doc_layout(*old(b), parts@[0].doc as int),
        ),
        !final(b).full_spec() ==> lays_first(
            doc_layout(*final(b), id as int),
            parts_layout(*old(b), parts@, 0, neck as int) + seq![Piece::Blank] + doc_layout(
                *old(b),
                parts@[neck as int].doc as int,
            ),
        ),
{
    let ghost b0 = *b;
    let ghost n = parts@.len() as int;
    let head_seq = separated(ctx, b, parts, 0, neck);
    let ghost b1 = *b;
    let head_doc = e_group(ctx, b, head_seq);
    let ghost b2 = *b;
    let neck_doc = parts[neck].doc;
    let space = e_space(ctx, b);
    let ghost b3 = *b;
    proof {
        lemma_parts_text_stable(b0, b3, parts@, tail as int, n);
    }
    let tail_doc = concat(ctx, b, parts, tail, parts.len());
    let ghost b4 = *b;
    proof {
        lemma_parts_text_split(b0, parts@, 0, neck as int, n);
        lemma_parts_text_split(b0, parts@, neck as int, neck + 1, n);
        lemma_parts_text_split(b0, parts@, neck + 1, tail as int, n);
        lemma_parts_text_one(b0, parts@, neck as int);
    }
    let whole = if tail == neck + 1 {
        if neck_tail_fuses {
            let gap = e_space(ctx, b);
            let ghost b5 = *b;
            let w = e_seq(ctx, b, &[head_doc, space, neck_doc, gap, tail_doc]);
            proof {
                if !b.full_spec() {
                    lemma_items_layout_first(b5, seq![head_doc, space, neck_doc, gap, tail_doc]);
                    lemma_items_layout_first3(b5, seq![head_doc, space, neck_doc, gap, tail_doc]);
                    assert(doc_layout(b5, space as int) == doc_layout(b3, space as int));
                    assert(doc_layout(b5, neck_doc as int) == doc_layout(b0, neck_doc as int));
                    assert(doc_layout(b5, head_doc as int) == doc_layout(b2, head_doc as int));
                    assert(lays_first(doc_layout(*b, w as int), doc_layout(b2, head_doc as int)));
                }
                lemma_items_text_5(b5, head_doc, space, neck_doc, gap, tail_doc);
                assert(parts_text(b0, parts@, neck + 1, tail as int) =~= Seq::<Span>::empty());
                if !b.full_spec() {
                    assert(doc_text(*b, w as int) =~= parts_text(b0, parts@, 0, n));
                }
            }
            w
        } else {
            let ghost b5 = *b;
            let w = e_seq(ctx, b, &[head_doc, space, neck_doc, tail_doc]);
            proof {
                if !b.full_spec() {
                    lemma_items_layout_first(b5, seq![head_doc, space, neck_doc, tail_doc]);
                    lemma_items_layout_first3(b5, seq![head_doc, space, neck_doc, tail_doc]);
                    assert(doc_layout(b5, space as int) == doc_layout(b3, space as int));
                    assert(doc_layout(b5, neck_doc as int) == doc_layout(b0, neck_doc as int));
                    assert(doc_layout(b5, head_doc as int) == doc_layout(b2, head_doc as int));
                    assert(lays_first(doc_layout(*b, w as int), doc_layout(b2, head_doc as int)));
                }
                lemma_items_text_4(b5, head_doc, space, neck_doc, tail_doc);
                assert(parts_text(b0, parts@, neck + 1, tail as int) =~= Seq::<Span>::empty());
                if !b.full_spec() {
                    assert(doc_text(*b, w as int) =~= parts_text(b0, parts@, 0, n));
                }
            }
            w
        }
    } else {
        proof {
            lemma_parts_text_stable(b0, b4, parts@, neck + 1, tail as int);
        }
        let body_seq = separated(ctx, b, parts, neck + 1, tail);
        let drop_line = e_line(ctx, b);
        let ghost b6 = *b;
        let dropped = e_seq(ctx, b, &[drop_line, body_seq]);
        proof {
            lemma_items_text_2(b6, drop_line, body_seq);
        }
        let nested = e_nest(ctx, b, indent, dropped);
        let nested_tail = e_nest(ctx, b, indent, tail_doc);
        let ghost b7 = *b;
        let w = e_seq(ctx, b, &[head_doc, space, neck_doc, nested, nested_tail]);
        proof {
            if !b.full_spec() {
                lemma_items_layout_first(b7, seq![head_doc, space, neck_doc, nested, nested_tail]);
                lemma_items_layout_first3(b7, seq![head_doc, space, neck_doc, nested, nested_tail]);
                assert(doc_layout(b7, space as int) == doc_layout(b3, space as int));
                assert(doc_layout(b7, neck_doc as int) == doc_layout(b0, neck_doc as int));
                assert(doc_layout(b7, head_doc as int) == doc_layout(b2, head_doc as int));
                assert(lays_first(doc_layout(*b, w as int), doc_layout(b2, head_doc as int)));
            }
            lemma_items_text_5(b7, head_doc, space, neck_doc, nested, nested_tail);
            if !b.full_spec() {
                assert(doc_text(*b, w as int) =~= parts_text(b0, parts@, 0, n));
            }
        }
        w
    };
    let ghost bw = *b;
    let id = e_group(ctx, b, whole);
    proof {
        if !b.full_spec() {
            assert(doc_layout(b2, head_doc as int) == doc_layout(b1, head_seq as int));
            assert(parts@[neck as int].doc < b0.nodes_spec().len());
        }
        if !b.full_spec() && 0 < neck {
            assert(doc_layout(b2, head_doc as int) == doc_layout(b1, head_seq as int));
            lemma_lays_first_trans(
                doc_layout(bw, whole as int),
                doc_layout(b2, head_doc as int),
                doc_layout(b0, parts@[0].doc as int),
            );
        }
    }
    id
}

/// Leading connective neck (an integrity / weak constraint): the neck, a space,
/// then the body hanging at a relative `neck_width`, the tail nested with it. With
/// neither body nor tail, just the neck.
pub fn leading_neck(
    ctx: &Ctx,
    b: &mut DocBuilder,
    parts: &[Part],
    neck: usize,
    tail: usize,
    neck_width: i32,
) -> (id: NodeId)
    requires
        doc_ok(*old(b), ctx.bytes@),
        parts_ok(parts@, *old(b)),
        neck + 1 <= tail <= parts@.len(),
    ensures
        doc_ok(*final(b), ctx.bytes@),
        grows(*old(b), *final(b)),
        id < final(b).nodes_spec().len(),
        settled(*old(b), *final(b)),
        !final(b).full_spec() ==> doc_text(*final(b), id as int) == parts_text(
            *old(b),
            parts@,
            neck as int,
            parts@.len() as int,
        ),
        !final(b).full_spec() && neck == 0 ==> lays_first(
            doc_layout(*final(b), id as int),
            doc_layout(*old(b), parts@[0].doc as int),
        ),
        !final(b).full_spec() && parts@.len() > neck + 1 ==> lays_first(
            doc_layout(*final(b), id as int),
            doc_layout(*old(b), parts@[neck as int].doc as int) + seq![Piece::Blank],
        ),
{
    let ghost b0 = *b;
    let ghost n = parts@.len() as int;
    proof {
        lemma_parts_text_one(b0, parts@, neck as int);
        lemma_parts_text_split(b0, parts@, neck as int, neck + 1, n);
        lemma_parts_text_split(b0, parts@, neck + 1, tail as int, n);
    }
    let neck_doc = parts[neck].doc;
    if tail == neck + 1 && tail == parts.len() {
        proof {
            assert(parts_text(b0, parts@, neck + 1, n) =~= Seq::<Span>::empty());
            assert(parts_text(b0, parts@, neck as int, n) =~= doc_text(b0, neck_doc as int));
            lemma_lays_first_self(doc_layout(b0, neck_doc as int));
        }
        return e_group(ctx, b, neck_doc);
    }
    let body_seq = separated(ctx, b, parts, neck + 1, tail);
    let nested = e_nest(ctx, b, neck_width, body_seq);
    let space = e_space(ctx, b);
    let ghost b3 = *b;
    proof {
        lemma_parts_text_stable(b0, b3, parts@, tail as int, n);
    }
    let tail_doc = concat(ctx, b, parts, tail, parts.len());
    let nested_tail = e_nest(ctx, b, neck_width, tail_doc);
    let ghost b5 = *b;
    let whole = e_seq(ctx, b, &[neck_doc, space, nested, nested_tail]);
    proof {
        lemma_items_text_4(b5, neck_doc, space, nested, nested_tail);
        if !b.full_spec() {
            assert(doc_text(*b, whole as int) =~= parts_text(b0, parts@, neck as int, n));
            lemma_items_layout_first(b5, seq![neck_doc, space, nested, nested_tail]);
            assert(doc_layout(b5, neck_doc as int) == doc_layout(b0, neck_doc as int));
            lemma_items_layout_first3(b5, seq![neck_doc, space, nested, nested_tail]);
            assert(doc_layout(b5, space as int) == doc_layout(b3, space as int));
            let p = doc_layout(b0, neck_doc as int) + seq![Piece::Blank];
            let l3 = p + doc_layout(b5, nested as int);
            lemma_lays_first_self(p);
            lemma_lays_first_concat(p, doc_layout(b5, nested as int), p);
            lemma_lays_first_trans(doc_layout(*b, whole as int), l3, p);
        }
    }
    e_group(ctx, b, whole)
}

/// A bracketed construct lays out its first part first: the name when it has
/// one, else the opener.
proof fn lemma_name_first(b0: DocBuilder, b1: DocBuilder, bx: DocBuilder, s: Seq<NodeId>, parts: Seq<Part>, opener: int)
    requires
        s.len() > 1,
        0 <= opener < parts.len(),
        s[1] == parts[opener].doc,
        doc_layout(bx, s[0] as int) == doc_layout(b1, s[0] as int),
        doc_layout(bx, s[1] as int) == doc_layout(b0, s[1] as int),
        opener > 0 ==> lays_first(doc_layout(b1, s[0] as int), doc_layout(b0, parts[0].doc as int)),
        opener == 0 ==> doc_layout(b1, s[0] as int) == Seq::<Piece>::empty(),
    ensures
        lays_first(items_layout(bx, s), doc_layout(b0, parts[0].doc as int)),
{
    if opener > 0 {
        lemma_items_layout_first(bx, s);
        lemma_lays_first_trans(items_layout(bx, s), doc_layout(bx, s[0] as int), doc_layout(b0, parts[0].doc as int));
    } else {
        lemma_items_layout_second(bx, s);
    }
}

/// The text of a bracketed construct's pieces adds up to the text of its parts:
/// the name `..opener`, the opener, the body `opener+1..body_end`, the closer
/// (if any, at `body_end`), and the tail `tail..`.
pub proof fn lemma_bracket_accounting(b: DocBuilder, s: Seq<Part>, opener: int, closer: Option<usize>, tail: int)
    requires
        0 <= opener,
        opener + 1 <= tail <= s.len(),
        closer matches Some(c) ==> opener < c && tail == c + 1,
    ensures
        ({
            let body_end = match closer {
                Some(c) => c as int,
                None => tail,
            };
            let closer_text = match closer {
                Some(c) => doc_text(b, s[c as int].doc as int),
                None => Seq::<Span>::empty(),
            };
            parts_text(b, s, 0, s.len() as int) == parts_text(b, s, 0, opener) + doc_text(b, s[opener].doc as int)
                + parts_text(b, s, opener + 1, body_end) + closer_text + parts_text(b, s, tail, s.len() as int)
        }),
{
    let n = s.len() as int;
    let body_end = match closer {
        Some(c) => c as int,
        None => tail,
    };
    lemma_parts_text_split(b, s, 0, opener, n);
    lemma_parts_text_split(b, s, opener, opener + 1, n);
    lemma_parts_text_one(b, s, opener);
    lemma_parts_text_split(b, s, opener + 1, body_end, n);
    lemma_parts_text_split(b, s, body_end, tail, n);
    match closer {
        Some(c) => {
            lemma_parts_text_one(b, s, c as int);
        },
        None => {
            assert(parts_text(b, s, body_end, tail) =~= Seq::<Span>::empty());
        },
    }
    let closer_text = match closer {
        Some(c) => doc_text(b, s[c as int].doc as int),
        None => Seq::<Span>::empty(),
    };
    assert(parts_text(b, s, 0, n) =~= parts_text(b, s, 0, opener) + doc_text(b, s[opener].doc as int)
        + parts_text(b, s, opener + 1, body_end) + closer_text + parts_text(b, s, tail, n));
}

/// A bracketed block: `name{` opens an `indent`-deep body that explodes one
/// element per line with a dedented closer, or stays flat when it fits. An empty
/// bracket hugs (`{}` / `()`).
#[verifier::rlimit(40)]
pub fn bracketed(
    ctx: &Ctx,
    b: &mut DocBuilder,
    parts: &[Part],
    opener: usize,
    closer: Option<usize>,
    tail: usize,
    indent: i32,
) -> (id: NodeId)
    requires
        doc_ok(*old(b), ctx.bytes@),
        parts_ok(parts@, *old(b)),
        opener + 1 <= tail <= parts@.len(),
        closer matches Some(c) ==> opener < c && tail == c + 1,
    ensures
        doc_ok(*final(b), ctx.bytes@),
        grows(*old(b), *final(b)),
        id < final(b).nodes_spec().len(),
        settled(*old(b), *final(b)),
        !final(b).full_spec() ==> doc_text(*final(b), id as int) == parts_text(
            *old(b),
            parts@,
            0,
            parts@.len() as int,
        ),
        !final(b).full_spec() ==> lays_first(
            doc_layout(*final(b), id as int),
            doc_layout(*old(b), parts@[0].doc as int),
        ),
        !final(b).full_spec() ==> doc_layout(*final(b), id as int) == parts_layout(
            *old(b),
            parts@,
            0,
            parts@.len() as int,
        ),
{
    let ghost b0 = *b;
    let ghost n = parts@.len() as int;
    let pad = match parts[opener].role {
        Role::Opener(OpenerKind::Bracket(p)) => p,
        _ => Pad::Tight,
    };
    let body_end = match closer {
        Some(c) => c,
        None => tail,
    };
    let name_doc = concat(ctx, b, parts, 0, opener);
    let ghost b1 = *b;
    assert(parts_text(b1, parts@, tail as int, n) == parts_text(b0, parts@, tail as int, n)) by {
        lemma_parts_text_stable(b0, b1, parts@, tail as int, n);
    }
    let opener_doc = parts[opener].doc;
    proof {
        lemma_parts_layout_stable(b0, b1, parts@, tail as int, n);
    }
    let tail_doc = concat(ctx, b, parts, tail, parts.len());
    let ghost b2 = *b;
    if body_end == opener + 1 {
        let whole = match closer {
            Some(c) => e_seq(ctx, b, &[name_doc, opener_doc, parts[c].doc, tail_doc]),
            None => e_seq(ctx, b, &[name_doc, opener_doc, tail_doc]),
        };
        proof {
            if !b.full_spec() {
                assert(doc_layout(b2, name_doc as int) == doc_layout(b1, name_doc as int));
                assert(doc_layout(b2, opener_doc as int) == doc_layout(b0, opener_doc as int));
                match closer {
                    Some(c) => {
                        lemma_name_first(b0, b1, b2, seq![name_doc, opener_doc, parts@[c as int].doc, tail_doc], parts@, opener as int);
                    },
                    None => {
                        lemma_name_first(b0, b1, b2, seq![name_doc, opener_doc, tail_doc], parts@, opener as int);
                    },
                }
                lemma_bracket_accounting(b0, parts@, opener as int, closer, tail as int);
                assert(parts_text(b0, parts@, opener + 1, body_end as int) =~= Seq::<Span>::empty());
                match closer {
                    Some(c) => {
                        lemma_items_text_4(b2, name_doc, opener_doc, parts@[c as int].doc, tail_doc);
                    },
                    None => {
                        lemma_items_text_3(b2, name_doc, opener_doc, tail_doc);
                    },
                }
                assert(doc_text(*b, whole as int) =~= parts_text(b0, parts@, 0, n));
                lemma_bracket_layout_accounting(b0, parts@, opener as int, closer, tail as int);
                assert(parts_layout(b0, parts@, opener + 1, body_end as int) =~= Seq::<Piece>::empty());
                assert(doc_layout(b2, tail_doc as int) == parts_layout(b0, parts@, tail as int, n));
                match closer {
                    Some(c) => {
                        assert(doc_layout(b2, parts@[c as int].doc as int) == doc_layout(b0, parts@[c as int].doc as int));
                        lemma_items_layout_four(b2, name_doc, opener_doc, parts@[c as int].doc, tail_doc);
                    },
                    None => {
                        lemma_items_layout_three(b2, name_doc, opener_doc, tail_doc);
                    },
                }
                assert(doc_layout(*b, whole as int) =~= parts_layout(b0, parts@, 0, n));
            }
        }
        return e_group(ctx, b, whole);
    }
    assert(parts_text(b2, parts@, opener + 1, body_end as int) == parts_text(b0, parts@, opener + 1, body_end as int))
        by {
        lemma_parts_text_stable(b0, b2, parts@, opener + 1, body_end as int);
    }
    proof {
        lemma_parts_layout_stable(b0, b2, parts@, opener + 1, body_end as int);
    }
    let body_seq = separated(ctx, b, parts, opener + 1, body_end);
    let open_break = pad_break(ctx, b, pad);
    let ghost b3 = *b;
    let inner = e_seq(ctx, b, &[open_break, body_seq]);
    proof {
        lemma_items_text_2(b3, open_break, body_seq);
        if !b.full_spec() {
            let e = Seq::<NodeId>::empty();
            assert(items_layout(b3, e) =~= Seq::<Piece>::empty());
            lemma_items_layout_push(b3, e, open_break);
            assert(e.push(open_break) =~= seq![open_break]);
            lemma_items_layout_push(b3, seq![open_break], body_seq);
            assert(seq![open_break].push(body_seq) =~= seq![open_break, body_seq]);
            assert(doc_layout(b3, open_break as int) == Seq::<Piece>::empty());
            assert(doc_layout(*b, inner as int) =~= doc_layout(b3, body_seq as int));
        }
    }
    let nested = e_nest(ctx, b, indent, inner);
    let whole = match closer {
        Some(c) => {
            let close_break = pad_break(ctx, b, pad);
            let ghost b4 = *b;
            let w = e_seq(ctx, b, &[name_doc, opener_doc, nested, close_break, parts[c].doc, tail_doc]);
            proof {
                if !b.full_spec() {
                    assert(doc_layout(b4, name_doc as int) == doc_layout(b1, name_doc as int));
                    assert(doc_layout(b4, opener_doc as int) == doc_layout(b0, opener_doc as int));
                    lemma_name_first(b0, b1, b4, seq![name_doc, opener_doc, nested, close_break, parts@[c as int].doc, tail_doc], parts@, opener as int);
                    lemma_items_text_6(b4, name_doc, opener_doc, nested, close_break, parts@[c as int].doc, tail_doc);
                    lemma_bracket_accounting(b0, parts@, opener as int, closer, tail as int);
                    assert(doc_text(*b, w as int) =~= parts_text(b0, parts@, 0, n));
                    lemma_items_layout_six(b4, name_doc, opener_doc, nested, close_break, parts@[c as int].doc, tail_doc);
                    lemma_bracket_layout_accounting(b0, parts@, opener as int, closer, tail as int);
                    assert(doc_layout(b4, parts@[c as int].doc as int) == doc_layout(b0, parts@[c as int].doc as int));
                    assert(doc_layout(b4, tail_doc as int) == doc_layout(b2, tail_doc as int));
                    assert(doc_layout(*b, w as int) =~= parts_layout(b0, parts@, 0, n));
                }
            }
            w
        },
        None => {
            let ghost b4 = *b;
            let w = e_seq(ctx, b, &[name_doc, opener_doc, nested, tail_doc]);
            proof {
                if !b.full_spec() {
                    assert(doc_layout(b4, name_doc as int) == doc_layout(b1, name_doc as int));
                    assert(doc_layout(b4, opener_doc as int) == doc_layout(b0, opener_doc as int));
                    lemma_name_first(b0, b1, b4, seq![name_doc, opener_doc, nested, tail_doc], parts@, opener as int);
                    lemma_items_text_4(b4, name_doc, opener_doc, nested, tail_doc);
                    lemma_bracket_accounting(b0, parts@, opener as int, closer, tail as int);
                    assert(doc_text(*b, w as int) =~= parts_text(b0, parts@, 0, n));
                    lemma_items_layout_four(b4, name_doc, opener_doc, nested, tail_doc);
                    lemma_bracket_layout_accounting(b0, parts@, opener as int, closer, tail as int);
                    assert(doc_layout(b4, tail_doc as int) == doc_layout(b2, tail_doc as int));
                    assert(doc_layout(*b, w as int) =~= parts_layout(b0, parts@, 0, n));
                }
            }
            w
        },
    };
    e_group(ctx, b, whole)
}

/// Realize the shape of `parts` as one grouped Doc node: flat iff it fits, else
/// exploded. `indent` (the block drop) and `neck_width` (the `:-` hang) are
/// relative nest deltas; `neck_tail_fuses` is consulted only where an empty-body
/// trailing neck abuts its tail.
///
/// For any roles whatever, the node prints exactly the parts' text in source
/// order: assembly only interposes whitespace (spaces, breaks, nests, groups)
/// and never drops, repeats or reorders a part. This holds unless the arena
/// ran out of ids.
pub fn assemble(
    ctx: &Ctx,
    b: &mut DocBuilder,
    parts: &[Part],
    indent: i32,
    neck_width: i32,
    neck_tail_fuses: bool,
) -> (id: NodeId)
    requires
        doc_ok(*old(b), ctx.bytes@),
        parts_ok(parts@, *old(b)),
    ensures
        doc_ok(*final(b), ctx.bytes@),
        grows(*old(b), *final(b)),
        id < final(b).nodes_spec().len(),
        settled(*old(b), *final(b)),
        !final(b).full_spec() ==> doc_text(*final(b), id as int) == parts_text(
            *old(b),
            parts@,
            0,
            parts@.len() as int,
        ),
        !final(b).full_spec() && parts@.len() > 0 ==> lays_first(
            doc_layout(*final(b), id as int),
            doc_layout(*old(b), parts@[0].doc as int),
        ),
        !final(b).full_spec() && classify_spec(parts@) == Spine::Separated ==> doc_layout(*final(b), id as int)
            == parts_layout(*old(b), parts@, 0, parts@.len() as int),
        !final(b).full_spec() && no_necks(parts@) ==> doc_layout(*final(b), id as int) == parts_layout(
            *old(b),
            parts@,
            0,
            parts@.len() as int,
        ),
        !final(b).full_spec() && classify_spec(parts@) is LeadingNeck && parts@.len() > 1 ==> lays_first(
            doc_layout(*final(b), id as int),
            doc_layout(*old(b), parts@[0].doc as int) + seq![Piece::Blank],
        ),
        !final(b).full_spec() && classify_spec(parts@) is TrailingNeck ==> lays_first(
            doc_layout(*final(b), id as int),
            parts_layout(*old(b), parts@, 0, classify_spec(parts@)->TrailingNeck_neck as int) + seq![Piece::Blank]
                + doc_layout(*old(b), parts@[classify_spec(parts@)->TrailingNeck_neck as int].doc as int),
        ),
{
    proof {
        if no_necks(parts@) {
            lemma_neckless_spine(parts@);
        }
    }
    match classify(parts) {
        Spine::LeadingNeck { neck, tail } => leading_neck(ctx, b, parts, neck, tail, neck_width),
        Spine::TrailingNeck { neck, tail } => trailing_neck(ctx, b, parts, neck, tail, indent, neck_tail_fuses),
        Spine::Bracketed { opener, closer, tail } => bracketed(ctx, b, parts, opener, closer, tail, indent),
        Spine::Separated => {
            let body = separated(ctx, b, parts, 0, parts.len());
            e_group(ctx, b, body)
        },
    }
}

/// Rendered, an assembled node prints the parts' source text in order with only
/// layout between: for a node whose text is the parts' text (what [`assemble`]
/// guarantees while the arena has room), removing blanks, tabs and newlines
/// from the printed bytes leaves exactly the parts' bytes, at every width.
pub proof fn lemma_assembled_prints_parts(
    b0: DocBuilder,
    b1: DocBuilder,
    parts: Seq<Part>,
    id: NodeId,
    src: Seq<u8>,
    width: usize,
)
    requires
        b1.wf(),
        doc_text(b1, id as int) == parts_text(b0, parts, 0, parts.len() as int),
    ensures
        strip_layout(render_bytes(b1.nodes_spec(), b1.cids_spec(), id, src, width)) == strip_layout(
            spans_bytes(src, parts_text(b0, parts, 0, parts.len() as int)),
        ),
{
    b1.lemma_wf_arena();
    lemma_render_only_lays_out(b1.nodes_spec(), b1.cids_spec(), id, src, width);
}

} // verus!
