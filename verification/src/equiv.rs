//! The relation `≈`: two parse trees are equivalent iff their structural token
//! streams agree (node kind, field label, non-comment arity, and at leaves the
//! terminal text — including anonymous tokens like `,` `;` `|`) and their
//! comment-text sequences agree (modulo trailing whitespace). [`first_divergence`]
//! is the single definition of `≈`: [`verify`] and [`equivalent`] both route
//! through it, so the certificate and its witness cannot disagree.

use crate::cst::{
    clingo_field_name, clingo_field_name_spec, clingo_kind_id, clingo_kind_id_spec, clingo_kind_name,
    clingo_kind_name_spec, has_error, read_source, source_cst, source_has_error, Cst, CstNode,
};
use crate::style::Style;
use crate::text::{
    debug_quoted, debug_quoted_spec, decimal, decimal_spec, slice_ok, str_eq, trim_end, trim_end_spec,
    try_slice,
};
use vstd::prelude::*;
use vstd::string::StringExecFns;
use vstd::string::StringSliceAdditionalSpecFns;

verus! {

/// One element of the structural token stream: a node's field label, its kind,
/// its non-comment arity, and — at a leaf — its terminal text.
#[derive(Clone, Copy, Debug, PartialEq, Eq)]
pub struct Item<'a> {
    pub field: u16,
    pub kind: u16,
    pub child_count: usize,
    pub text: Option<&'a str>,
}

/// A stream element plus the node's source byte range, for witnessing.
#[derive(Clone, Copy, Debug)]
pub struct Entry<'a> {
    pub item: Item<'a>,
    pub start: usize,
    pub end: usize,
}

/// One side of a structural divergence: the node's kind, field label and arity,
/// and its leaf text.
#[derive(Clone, Debug, PartialEq, Eq)]
pub struct NodeWitness {
    pub kind: u16,
    pub field: u16,
    pub child_count: usize,
    pub text: Option<String>,
}

/// The witness of a structural divergence: the input byte range of the first
/// diverging node, and that node on each side (`None` where a stream ran out).
#[derive(Clone, Debug, PartialEq, Eq)]
pub struct StructuralMismatch {
    pub start: usize,
    pub end: usize,
    pub expected: Option<NodeWitness>,
    pub found: Option<NodeWitness>,
}

/// The witness of a comment divergence: its index in the in-order comment
/// sequence and the text on each side (`None` where a sequence ran out).
#[derive(Clone, Debug, PartialEq, Eq)]
pub struct CommentMismatch {
    pub index: usize,
    pub expected: Option<String>,
    pub found: Option<String>,
}

/// What [`verify`] witnesses when `format(s)` is not `≈` to `s`.
#[derive(Clone, Debug, PartialEq, Eq)]
#[non_exhaustive]
pub enum Mismatch {
    /// The structural token streams diverged.
    Structure(Box<StructuralMismatch>),
    /// The in-order comment-text sequences diverged.
    Comment(CommentMismatch),
}

/// How a witness names a node kind: the grammar's name for it, or its id in
/// decimal when the grammar has none.
pub open spec fn kind_label(kind: u16) -> Seq<char> {
    match clingo_kind_name_spec(kind) {
        Some(name) => name,
        None => decimal_spec(kind as nat),
    }
}

/// The field label that prefixes a witness (`"head: "`), empty without a field.
pub open spec fn field_prefix(field: u16) -> Seq<char> {
    match clingo_field_name_spec(field) {
        Some(name) => name + ": "@,
        None => Seq::empty(),
    }
}

/// One side of a structural witness as text: a leaf shows its kind and quoted
/// text, an interior node its kind and arity; a field label prefixes either.
pub open spec fn witness_text(w: Option<NodeWitness>) -> Seq<char> {
    match w {
        None => "<none>"@,
        Some(n) => field_prefix(n.field) + kind_label(n.kind) + match n.text {
            Some(t) => " "@ + debug_quoted_spec(t@),
            None => " ("@ + decimal_spec(n.child_count as nat) + " children)"@,
        },
    }
}

/// A comment witness's text, `"<none>"` where its sequence ran out.
pub open spec fn comment_or_none(c: Option<String>) -> Seq<char> {
    match c {
        Some(t) => t@,
        None => "<none>"@,
    }
}

/// The human-readable report of a mismatch.
pub open spec fn mismatch_text(m: Mismatch) -> Seq<char> {
    match m {
        Mismatch::Structure(s) => "structural divergence at input bytes "@ + decimal_spec(s.start as nat)
            + ".."@ + decimal_spec(s.end as nat) + ": expected "@ + witness_text(s.expected)
            + ", found "@ + witness_text(s.found),
        Mismatch::Comment(c) => "comment #"@ + decimal_spec(c.index as nat) + " diverged: expected "@
            + debug_quoted_spec(comment_or_none(c.expected)) + ", found "@ + debug_quoted_spec(
            comment_or_none(c.found),
        ),
    }
}

/// Write one side of a structural witness (see [`witness_text`]).
fn witness_to_string(w: &Option<NodeWitness>) -> (r: String)
    ensures
        r@ == witness_text(*w),
{
    match w {
        None => "<none>".to_owned(),
        Some(n) => {
            let mut out = match clingo_field_name(n.field) {
                Some(name) => {
                    let mut f = name;
                    f.append(": ");
                    f
                },
                None => String::new(),
            };
            match clingo_kind_name(n.kind) {
                Some(name) => out.append(name.as_str()),
                None => out.append(decimal(n.kind as usize).as_str()),
            }
            match &n.text {
                Some(t) => {
                    out.append(" ");
                    out.append(debug_quoted(t.as_str()).as_str());
                },
                None => {
                    out.append(" (");
                    out.append(decimal(n.child_count).as_str());
                    out.append(" children)");
                },
            }
            out
        },
    }
}

impl Mismatch {
    /// The human-readable report: the byte range and both sides of a structural
    /// divergence, or the index and both texts of a comment divergence.
    pub fn to_string(&self) -> (r: String)
        ensures
            r@ == mismatch_text(*self),
    {
        match self {
            Mismatch::Structure(s) => {
                let mut out = "structural divergence at input bytes ".to_owned();
                out.append(decimal(s.start).as_str());
                out.append("..");
                out.append(decimal(s.end).as_str());
                out.append(": expected ");
                out.append(witness_to_string(&s.expected).as_str());
                out.append(", found ");
                out.append(witness_to_string(&s.found).as_str());
                out
            },
            Mismatch::Comment(c) => {
                let mut out = "comment #".to_owned();
                out.append(decimal(c.index).as_str());
                out.append(" diverged: expected ");
                let e = match &c.expected {
                    Some(t) => debug_quoted(t.as_str()),
                    None => debug_quoted("<none>"),
                };
                out.append(e.as_str());
                out.append(", found ");
                let f = match &c.found {
                    Some(t) => debug_quoted(t.as_str()),
                    None => debug_quoted("<none>"),
                };
                out.append(f.as_str());
                out
            },
        }
    }
}

/// The grammar's trivia ids: `line_comment`, `block_comment`.
pub open spec fn is_extra(n: CstNode) -> bool {
    n.kind == clingo_kind_id_spec("line_comment"@, true) || n.kind == clingo_kind_id_spec(
        "block_comment"@,
        true,
    )
}

/// The pre-order walk below node `i` in one of three modes: `0` the structural
/// stream (comment extras and their subtrees removed), `1` the comment nodes,
/// `2` every node.
pub open spec fn walk(ns: Seq<CstNode>, i: int, mode: u8) -> Seq<int>
    decreases ns.len() - i, ns[i].count + 1,
{
    if i < 0 || i >= ns.len() {
        Seq::empty()
    } else if mode == 0 && is_extra(ns[i]) {
        Seq::empty()
    } else {
        (if mode == 1 && !is_extra(ns[i]) {
            Seq::empty()
        } else {
            seq![i]
        }) + walk_kids(ns, i, 0, mode)
    }
}

/// The walks of node `i`'s children `k..`, concatenated.
pub open spec fn walk_kids(ns: Seq<CstNode>, i: int, k: int, mode: u8) -> Seq<int>
    decreases ns.len() - i, ns[i].count - k,
{
    if i < 0 || i >= ns.len() || k < 0 || k >= ns[i].count || ns[i].first <= i || ns[i].first + k >= ns.len() {
        Seq::empty()
    } else {
        walk(ns, ns[i].first + k, mode) + walk_kids(ns, i, k + 1, mode)
    }
}

/// The concatenated walks of a work stack, top (last) first.
pub open spec fn stack_walk(ns: Seq<CstNode>, s: Seq<usize>, mode: u8) -> Seq<int>
    decreases s.len(),
{
    if s.len() == 0 {
        Seq::empty()
    } else {
        walk(ns, s.last() as int, mode) + stack_walk(ns, s.drop_last(), mode)
    }
}

/// Pushing node `i`'s children `k..` in reverse onto `s` puts their walks on top
/// of the stack's, in order.
pub proof fn lemma_push_kids(ns: Seq<CstNode>, s: Seq<usize>, i: int, k: int, mode: u8)
    requires
        crate::cst::layout_wf(ns),
        0 <= i < ns.len(),
        0 <= k <= ns[i].count,
    ensures
        stack_walk(ns, s + push_order(ns, i, k), mode) == walk_kids(ns, i, k, mode) + stack_walk(ns, s, mode),
    decreases ns[i].count - k,
{
    crate::cst::lemma_children_in_bounds(ns, i);
    if k < ns[i].count {
        lemma_push_kids(ns, s, i, k + 1, mode);
        let rest = push_order(ns, i, k + 1);
        let c = (ns[i].first + k) as usize;
        assert(push_order(ns, i, k) == rest.push(c));
        let t = s + rest.push(c);
        assert(t.drop_last() =~= s + rest);
        assert(t.last() == c);
        assert(walk_kids(ns, i, k, mode) == walk(ns, c as int, mode) + walk_kids(ns, i, k + 1, mode));
        assert((walk(ns, c as int, mode) + walk_kids(ns, i, k + 1, mode)) + stack_walk(ns, s, mode) =~= walk(
            ns,
            c as int,
            mode,
        ) + (walk_kids(ns, i, k + 1, mode) + stack_walk(ns, s, mode)));
    } else {
        assert(s + push_order(ns, i, k) =~= s);
    }
}

/// Node `i`'s children `k..`, last first: the order in which they are pushed.
pub open spec fn push_order(ns: Seq<CstNode>, i: int, k: int) -> Seq<usize>
    decreases ns[i].count - k,
{
    if k < 0 || k >= ns[i].count {
        Seq::empty()
    } else {
        push_order(ns, i, k + 1).push((ns[i].first + k) as usize)
    }
}

/// The number of non-comment children of node `i`.
pub open spec fn noncomment_count_spec(ns: Seq<CstNode>, i: int, k: int) -> nat
    decreases k,
{
    if k <= 0 {
        0
    } else {
        noncomment_count_spec(ns, i, k - 1) + if is_extra(ns[ns[i].first + k - 1]) {
            0nat
        } else {
            1nat
        }
    }
}

/// The comparison key of node `j`, taken by view: field, kind, non-comment
/// arity, and the text of a leaf whose span cuts the source cleanly.
pub open spec fn item_key(ns: Seq<CstNode>, src: Seq<u8>, j: int) -> (u16, u16, nat, Option<Seq<char>>) {
    let n = ns[j];
    (
        n.field,
        n.kind,
        noncomment_count_spec(ns, j, n.count as int),
        if n.count == 0 && slice_ok(src, n.start as int, n.end as int) {
            Some(vstd::utf8::decode_utf8(src.subrange(n.start as int, n.end as int)))
        } else {
            None
        },
    )
}

/// The view of a stream item.
pub open spec fn item_view(it: Item) -> (u16, u16, nat, Option<Seq<char>>) {
    (
        it.field,
        it.kind,
        it.child_count as nat,
        match it.text {
            Some(t) => Some(t@),
            None => None,
        },
    )
}

/// The views of a stream of entries.
pub open spec fn entry_views(s: Seq<Entry>) -> Seq<(u16, u16, nat, Option<Seq<char>>)> {
    s.map_values(|e: Entry| item_view(e.item))
}

/// The views of a sequence of strings.
pub open spec fn text_views(s: Seq<&str>) -> Seq<Seq<char>> {
    s.map_values(|t: &str| t@)
}

/// The comparison keys of the nodes `s`.
pub open spec fn item_keys(ns: Seq<CstNode>, src: Seq<u8>, s: Seq<int>) -> Seq<(u16, u16, nat, Option<Seq<char>>)> {
    s.map_values(|j: int| item_key(ns, src, j))
}

/// The trimmed comment texts of the nodes `s`.
pub open spec fn comment_keys(ns: Seq<CstNode>, src: Seq<u8>, s: Seq<int>) -> Seq<Seq<char>> {
    s.map_values(|j: int| comment_key(ns, src, j))
}

/// The structural stream of a tree model over its source, as comparison keys.
pub open spec fn structure_of(ns: Seq<CstNode>, src: Seq<u8>) -> Seq<(u16, u16, nat, Option<Seq<char>>)> {
    item_keys(ns, src, walk(ns, 0, 0))
}

/// The comment text of node `j`, trimmed of trailing whitespace.
pub open spec fn comment_key(ns: Seq<CstNode>, src: Seq<u8>, j: int) -> Seq<char> {
    let n = ns[j];
    if slice_ok(src, n.start as int, n.end as int) {
        trim_end_spec(vstd::utf8::decode_utf8(src.subrange(n.start as int, n.end as int)))
    } else {
        Seq::empty()
    }
}

/// The in-order comment texts of a tree model, trimmed of trailing whitespace.
pub open spec fn comments_of(ns: Seq<CstNode>, src: Seq<u8>) -> Seq<Seq<char>> {
    comment_keys(ns, src, walk(ns, 0, 1))
}

/// `T_a ≈ T_b`: equal structural streams and equal comment sequences.
pub open spec fn equiv_spec(a: Seq<CstNode>, src_a: Seq<u8>, b: Seq<CstNode>, src_b: Seq<u8>) -> bool {
    structure_of(a, src_a) == structure_of(b, src_b) && comments_of(a, src_a) == comments_of(b, src_b)
}

/// `≈` is reflexive.
pub proof fn lemma_equiv_reflexive(a: Seq<CstNode>, src: Seq<u8>)
    ensures
        equiv_spec(a, src, a, src),
{
}

/// `≈` is symmetric.
pub proof fn lemma_equiv_symmetric(a: Seq<CstNode>, src_a: Seq<u8>, b: Seq<CstNode>, src_b: Seq<u8>)
    requires
        equiv_spec(a, src_a, b, src_b),
    ensures
        equiv_spec(b, src_b, a, src_a),
{
}

/// `≈` is transitive.
pub proof fn lemma_equiv_transitive(
    a: Seq<CstNode>,
    src_a: Seq<u8>,
    b: Seq<CstNode>,
    src_b: Seq<u8>,
    c: Seq<CstNode>,
    src_c: Seq<u8>,
)
    requires
        equiv_spec(a, src_a, b, src_b),
        equiv_spec(b, src_b, c, src_c),
    ensures
        equiv_spec(a, src_a, c, src_c),
{
}

/// Ids of the two comment extras.
pub struct ExtraIds {
    pub line: u16,
    pub block: u16,
}

impl ExtraIds {
    /// Resolve the trivia ids from the grammar.
    pub fn resolve() -> (r: Self)
        ensures
            r.line == clingo_kind_id_spec("line_comment"@, true),
            r.block == clingo_kind_id_spec("block_comment"@, true),
    {
        ExtraIds { line: clingo_kind_id("line_comment", true), block: clingo_kind_id("block_comment", true) }
    }
}

/// The comment extras removed before the structural comparison: the two trivia
/// comment kinds (a `doc_comment` is a statement, not an extra).
pub fn is_comment_extra(ids: &ExtraIds, n: CstNode) -> (r: bool)
    requires
        ids.line == clingo_kind_id_spec("line_comment"@, true),
        ids.block == clingo_kind_id_spec("block_comment"@, true),
    ensures
        r == is_extra(n),
{
    n.kind == ids.line || n.kind == ids.block
}

/// The number of non-comment children of node `i`.
pub fn noncomment_child_count(ids: &ExtraIds, cst: &Cst, i: usize) -> (r: usize)
    requires
        cst.wf(),
        i < cst.nodes@.len(),
        ids.line == clingo_kind_id_spec("line_comment"@, true),
        ids.block == clingo_kind_id_spec("block_comment"@, true),
    ensures
        r == noncomment_count_spec(cst.nodes@, i as int, cst.nodes@[i as int].count as int),
{
    proof {
        crate::cst::lemma_children_in_bounds(cst.nodes@, i as int);
    }
    let n = cst.nodes[i];
    let mut r: usize = 0;
    let mut k: usize = 0;
    while k < n.count
        invariant
            cst.wf(),
            n == cst.nodes@[i as int],
            n.first + n.count <= cst.nodes@.len(),
            k <= n.count,
            r <= k,
            r == noncomment_count_spec(cst.nodes@, i as int, k as int),
            ids.line == clingo_kind_id_spec("line_comment"@, true),
            ids.block == clingo_kind_id_spec("block_comment"@, true),
        decreases n.count - k,
    {
        if !is_comment_extra(ids, cst.nodes[n.first + k]) {
            r = r + 1;
        }
        k = k + 1;
    }
    r
}

/// Push node `i`'s children onto `stack` in reverse, so they pop in order.
fn push_children(cst: &Cst, i: usize, stack: &mut Vec<usize>)
    requires
        cst.wf(),
        i < cst.nodes@.len(),
    ensures
        final(stack)@ == old(stack)@ + push_order(cst.nodes@, i as int, 0),
{
    proof {
        crate::cst::lemma_children_in_bounds(cst.nodes@, i as int);
    }
    let n = cst.nodes[i];
    let mut k = n.count;
    while k > 0
        invariant
            cst.wf(),
            n == cst.nodes@[i as int],
            n.first + n.count <= cst.nodes@.len(),
            k <= n.count,
            stack@ == old(stack)@ + push_order(cst.nodes@, i as int, k as int),
        decreases k,
    {
        k = k - 1;
        stack.push(n.first + k);
        assert(stack@ =~= old(stack)@ + push_order(cst.nodes@, i as int, k as int));
    }
}

/// The structural token stream: a pre-order walk of the whole child sequence
/// (named and anonymous) with comment extras removed, each node keyed by field,
/// kind, non-comment arity and leaf text. An explicit work stack, no recursion.
pub fn token_stream<'a>(cst: &Cst, src: &'a str) -> (out: Vec<Entry<'a>>)
    requires
        cst.wf(),
    ensures
        entry_views(out@) == structure_of(cst.nodes@, src.spec_bytes()),
{
    let ids = ExtraIds::resolve();
    let ghost ns = cst.nodes@;
    let ghost target = walk(ns, 0, 0);
    let mut out: Vec<Entry<'a>> = Vec::new();
    let mut stack: Vec<usize> = Vec::new();
    stack.push(0);
    let ghost mut visited: Seq<int> = Seq::empty();
    proof {
        assert(stack@.drop_last() =~= Seq::<usize>::empty());
        assert(stack_walk(ns, Seq::<usize>::empty(), 0) =~= Seq::<int>::empty());
        assert(stack_walk(ns, stack@, 0) =~= walk(ns, 0, 0) + Seq::<int>::empty());
        assert(stack_walk(ns, stack@, 0) =~= walk(ns, 0, 0));
        assert(visited + stack_walk(ns, stack@, 0) =~= target);
    }
    while stack.len() > 0
        invariant
            cst.wf(),
            ns == cst.nodes@,
            ids.line == clingo_kind_id_spec("line_comment"@, true),
            ids.block == clingo_kind_id_spec("block_comment"@, true),
            forall|q: int| 0 <= q < stack@.len() ==> (#[trigger] stack@[q]) < ns.len(),
            visited + stack_walk(ns, stack@, 0) == target,
            entry_views(out@) == item_keys(ns, src.spec_bytes(), visited),
        decreases stack_walk(ns, stack@, 0).len(), stack@.len(),
    {
        let ghost s0 = stack@;
        let i = stack.pop().unwrap();
        assert(stack@ =~= s0.drop_last());
        let n = cst.nodes[i];
        if is_comment_extra(&ids, n) {
            assert(walk(ns, i as int, 0) =~= Seq::<int>::empty());
            assert(stack_walk(ns, s0, 0) =~= stack_walk(ns, stack@, 0));
        } else {
            let child_count = noncomment_child_count(&ids, cst, i);
            let text = if n.count == 0 {
                try_slice(src, n.start, n.end)
            } else {
                None
            };
            let ghost s1 = stack@;
            push_children(cst, i, &mut stack);
            proof {
                lemma_push_kids(ns, s1, i as int, 0, 0);
                crate::cst::lemma_children_in_bounds(ns, i as int);
                assert(walk(ns, i as int, 0) == seq![i as int] + walk_kids(ns, i as int, 0, 0));
                assert(visited.push(i as int) + stack_walk(ns, stack@, 0) =~= visited + stack_walk(ns, s0, 0));
                assert forall|q: int| 0 <= q < stack@.len() implies (#[trigger] stack@[q]) < ns.len() by {
                    if q >= s1.len() {
                        lemma_push_order_bounds(ns, i as int, 0, q - s1.len());
                    }
                }
            }
            let ghost o0 = out@;
            let e = Entry { item: Item { field: n.field, kind: n.kind, child_count, text }, start: n.start, end: n.end };
            assert(item_view(e.item) == item_key(ns, src.spec_bytes(), i as int));
            out.push(e);
            proof {
                let v0 = visited;
                visited = visited.push(i as int);
                assert(out@ =~= o0.push(e));
                let lhs = entry_views(out@);
                let rhs = item_keys(ns, src.spec_bytes(), visited);
                let l0 = entry_views(o0);
                let r0 = item_keys(ns, src.spec_bytes(), v0);
                assert(l0 == r0);
                assert(l0.len() == o0.len() && r0.len() == v0.len());
                assert(lhs.len() == rhs.len());
                assert forall|q: int| 0 <= q < lhs.len() implies lhs[q] == rhs[q] by {
                    if q < o0.len() {
                        assert(lhs[q] == l0[q]);
                        assert(rhs[q] == r0[q]);
                    }
                }
                assert(lhs =~= rhs);
            }
        }
    }
    proof {
        assert(stack_walk(ns, stack@, 0) =~= Seq::<int>::empty());
        assert(visited =~= target);
    }
    out
}

/// Every index in a push order is a child of `i`.
pub proof fn lemma_push_order_bounds(ns: Seq<CstNode>, i: int, k: int, q: int)
    requires
        crate::cst::layout_wf(ns),
        0 <= i < ns.len(),
        0 <= k,
        0 <= q < push_order(ns, i, k).len(),
    ensures
        push_order(ns, i, k)[q] < ns.len(),
        push_order(ns, i, k).len() == if k >= ns[i].count { 0 } else { ns[i].count - k },
    decreases ns[i].count - k,
{
    crate::cst::lemma_children_in_bounds(ns, i);
    if k < ns[i].count {
        lemma_push_order_len(ns, i, k + 1);
        if q < push_order(ns, i, k + 1).len() {
            lemma_push_order_bounds(ns, i, k + 1, q);
        }
    }
}

/// The length of a push order.
pub proof fn lemma_push_order_len(ns: Seq<CstNode>, i: int, k: int)
    requires
        0 <= i < ns.len(),
        0 <= k,
    ensures
        push_order(ns, i, k).len() == if k >= ns[i].count { 0 } else { ns[i].count - k },
    decreases ns[i].count - k,
{
    if k < ns[i].count {
        lemma_push_order_len(ns, i, k + 1);
    }
}


/// The in-order comment texts of the tree, each trimmed of trailing whitespace
/// (the formatter strips trailing whitespace inside single-line comments). A
/// sequence, not a multiset: pure layout never reorders comments.
pub fn comment_stream<'a>(cst: &Cst, src: &'a str) -> (out: Vec<&'a str>)
    requires
        cst.wf(),
    ensures
        text_views(out@) == comments_of(cst.nodes@, src.spec_bytes()),
{
    let ids = ExtraIds::resolve();
    let ghost ns = cst.nodes@;
    let ghost target = walk(ns, 0, 1);
    let mut out: Vec<&'a str> = Vec::new();
    let mut stack: Vec<usize> = Vec::new();
    stack.push(0);
    let ghost mut visited: Seq<int> = Seq::empty();
    proof {
        assert(stack@.drop_last() =~= Seq::<usize>::empty());
        assert(stack_walk(ns, Seq::<usize>::empty(), 1) =~= Seq::<int>::empty());
        assert(stack_walk(ns, stack@, 1) =~= walk(ns, 0, 1) + Seq::<int>::empty());
        assert(visited + stack_walk(ns, stack@, 1) =~= target);
    }
    while stack.len() > 0
        invariant
            cst.wf(),
            ns == cst.nodes@,
            ids.line == clingo_kind_id_spec("line_comment"@, true),
            ids.block == clingo_kind_id_spec("block_comment"@, true),
            forall|q: int| 0 <= q < stack@.len() ==> (#[trigger] stack@[q]) < ns.len(),
            visited + stack_walk(ns, stack@, 1) == target,
            text_views(out@) == comment_keys(ns, src.spec_bytes(), visited),
        decreases stack_walk(ns, stack@, 2).len(),
    {
        let ghost s0 = stack@;
        let i = stack.pop().unwrap();
        assert(stack@ =~= s0.drop_last());
        let n = cst.nodes[i];
        let ghost v0 = visited;
        let ghost o0 = out@;
        if is_comment_extra(&ids, n) {
            let t = match try_slice(src, n.start, n.end) {
                Some(x) => trim_end(x),
                None => "",
            };
            proof {
                reveal_strlit("");
            }
            assert(t@ == comment_key(ns, src.spec_bytes(), i as int));
            out.push(t);
            proof {
                visited = visited.push(i as int);
                assert(out@ =~= o0.push(t));
                let lhs = text_views(out@);
                let rhs = comment_keys(ns, src.spec_bytes(), visited);
                let l0 = text_views(o0);
                let r0 = comment_keys(ns, src.spec_bytes(), v0);
                assert(l0 == r0);
                assert(l0.len() == o0.len() && r0.len() == v0.len());
                assert forall|q: int| 0 <= q < lhs.len() implies lhs[q] == rhs[q] by {
                    if q < o0.len() {
                        assert(lhs[q] == l0[q]);
                        assert(rhs[q] == r0[q]);
                    }
                }
                assert(lhs =~= rhs);
            }
        }
        let ghost s1 = stack@;
        push_children(cst, i, &mut stack);
        proof {
            lemma_push_kids(ns, s1, i as int, 0, 1);
            lemma_push_kids(ns, s1, i as int, 0, 2);
            crate::cst::lemma_children_in_bounds(ns, i as int);
            assert(walk(ns, i as int, 1) == (if is_extra(ns[i as int]) {
                seq![i as int]
            } else {
                Seq::<int>::empty()
            }) + walk_kids(ns, i as int, 0, 1));
            assert(visited + stack_walk(ns, stack@, 1) =~= v0 + stack_walk(ns, s0, 1));
            assert forall|q: int| 0 <= q < stack@.len() implies (#[trigger] stack@[q]) < ns.len() by {
                if q >= s1.len() {
                    lemma_push_order_bounds(ns, i as int, 0, q - s1.len());
                }
            }
            lemma_push_order_len(ns, i as int, 0);
            if !is_extra(ns[i as int]) {
                assert(stack_walk(ns, s0, 1) =~= walk_kids(ns, i as int, 0, 1) + stack_walk(ns, s1, 1));
            }
        }
    }
    proof {
        assert(stack_walk(ns, stack@, 1) =~= Seq::<int>::empty());
        assert(visited =~= target);
    }
    out
}

/// Whether two stream items agree, compared by view.
pub fn item_eq(x: &Item, y: &Item) -> (r: bool)
    ensures
        r == (item_view(*x) == item_view(*y)),
{
    if x.field != y.field || x.kind != y.kind || x.child_count != y.child_count {
        return false;
    }
    match (x.text, y.text) {
        (Some(a), Some(b)) => str_eq(a, b),
        (None, None) => true,
        _ => false,
    }
}

/// One side of a structural witness from a stream entry, owning its leaf text.
pub fn node_witness(e: &Entry) -> (w: NodeWitness)
    ensures
        w.kind == e.item.kind,
        w.field == e.item.field,
        w.child_count == e.item.child_count,
        w.text is Some <==> e.item.text is Some,
        e.item.text matches Some(t) ==> w.text->0@ == t@,
{
    let text = match e.item.text {
        Some(t) => Some(t.to_owned()),
        None => None,
    };
    NodeWitness { kind: e.item.kind, field: e.item.field, child_count: e.item.child_count, text }
}

/// The view of one side of a structural witness, in the shape of a stream item.
pub open spec fn witness_view(w: NodeWitness) -> (u16, u16, nat, Option<Seq<char>>) {
    (
        w.field,
        w.kind,
        w.child_count as nat,
        match w.text {
            Some(t) => Some(t@),
            None => None,
        },
    )
}

/// `q` is the first position where the sequences `x` and `y` differ: they
/// agree before it, and at it one has run out or the two elements differ.
pub open spec fn first_difference<A>(x: Seq<A>, y: Seq<A>, q: int) -> bool {
    &&& 0 <= q
    &&& q <= x.len() && q <= y.len()
    &&& q < x.len() || q < y.len()
    &&& forall|p: int| 0 <= p < q ==> x[p] == y[p]
    &&& q < x.len() && q < y.len() ==> x[q] != y[q]
}

/// A witness side names the element at `q` of a stream, or is absent where the
/// stream ran out.
pub open spec fn names_item(w: Option<NodeWitness>, s: Seq<(u16, u16, nat, Option<Seq<char>>)>, q: int) -> bool {
    match w {
        Some(x) => q < s.len() && witness_view(x) == s[q],
        None => q >= s.len(),
    }
}

/// A comment witness side holds the comment at `q` of a sequence, or is absent
/// where the sequence ran out.
pub open spec fn names_comment(c: Option<String>, s: Seq<Seq<char>>, q: int) -> bool {
    match c {
        Some(t) => q < s.len() && t@ == s[q],
        None => q >= s.len(),
    }
}

/// The first divergence between two parse-tree models under `≈`, or `None` when
/// they are equivalent. The structural conjunct is checked first (its witness
/// localizes to the input `src_a`), then the comment conjunct.
pub fn first_divergence(a: &Cst, src_a: &str, b: &Cst, src_b: &str) -> (r: Option<Mismatch>)
    requires
        a.wf(),
        b.wf(),
    ensures
        r is None <==> equiv_spec(a.nodes@, src_a.spec_bytes(), b.nodes@, src_b.spec_bytes()),
        r matches Some(Mismatch::Comment(_)) ==> structure_of(a.nodes@, src_a.spec_bytes()) == structure_of(
            b.nodes@,
            src_b.spec_bytes(),
        ),
        r matches Some(Mismatch::Structure(m)) ==> {
            let va = structure_of(a.nodes@, src_a.spec_bytes());
            let vb = structure_of(b.nodes@, src_b.spec_bytes());
            exists|q: int|
                {
                    &&& first_difference(va, vb, q)
                    &&& names_item(m.expected, va, q)
                    &&& names_item(m.found, vb, q)
                    &&& q >= va.len() ==> m.start == src_a.len() && m.end == m.start
                }
        },
        r matches Some(Mismatch::Comment(m)) ==> {
            let wa = comments_of(a.nodes@, src_a.spec_bytes());
            let wb = comments_of(b.nodes@, src_b.spec_bytes());
            &&& first_difference(wa, wb, m.index as int)
            &&& names_comment(m.expected, wa, m.index as int)
            &&& names_comment(m.found, wb, m.index as int)
        },
{
    let ta = token_stream(a, src_a);
    let tb = token_stream(b, src_b);
    let ghost va = entry_views(ta@);
    let ghost vb = entry_views(tb@);
    assert(va == structure_of(a.nodes@, src_a.spec_bytes()));
    assert(vb == structure_of(b.nodes@, src_b.spec_bytes()));
    let la = ta.len();
    let lb = tb.len();
    let n = if la > lb { la } else { lb };
    let mut i: usize = 0;
    while i < n
        invariant
            la == ta@.len(),
            lb == tb@.len(),
            n == (if la > lb { la } else { lb }),
            i <= n,
            i <= la && i <= lb,
            va == entry_views(ta@),
            vb == entry_views(tb@),
            va == structure_of(a.nodes@, src_a.spec_bytes()),
            vb == structure_of(b.nodes@, src_b.spec_bytes()),
            forall|q: int| 0 <= q < i ==> va[q] == vb[q],
        decreases n - i,
    {
        if i < la && i < lb && item_eq(&ta[i].item, &tb[i].item) {
            assert(va[i as int] == vb[i as int]);
            i = i + 1;
        } else {
            proof {
                if i < la && i < lb {
                    assert(va[i as int] != vb[i as int]);
                }
                assert(va != vb) by {
                    if va.len() == vb.len() {
                        assert(va[i as int] != vb[i as int]);
                    }
                }
            }
            let (start, end) = if i < la {
                (ta[i].start, ta[i].end)
            } else {
                (src_a.len(), src_a.len())
            };
            let expected = if i < la {
                Some(node_witness(&ta[i]))
            } else {
                None
            };
            let found = if i < lb {
                Some(node_witness(&tb[i]))
            } else {
                None
            };
            assert(!equiv_spec(a.nodes@, src_a.spec_bytes(), b.nodes@, src_b.spec_bytes()));
            proof {
                assert(first_difference(va, vb, i as int));
                if i < la {
                    assert(va[i as int] == item_view(ta@[i as int].item));
                }
                if i < lb {
                    assert(vb[i as int] == item_view(tb@[i as int].item));
                }
                assert(names_item(expected, va, i as int));
                assert(names_item(found, vb, i as int));
                assert(va.len() == la);
                let q = i as int;
                assert({
                    &&& first_difference(va, vb, q)
                    &&& names_item(expected, va, q)
                    &&& names_item(found, vb, q)
                    &&& q >= va.len() ==> start == src_a.len() && end == start
                });
            }
            return Some(Mismatch::Structure(Box::new(StructuralMismatch { start, end, expected, found })));
        }
    }
    assert(va =~= vb);
    let ca = comment_stream(a, src_a);
    let cb = comment_stream(b, src_b);
    let ghost wa = text_views(ca@);
    let ghost wb = text_views(cb@);
    assert(wa == comments_of(a.nodes@, src_a.spec_bytes()));
    assert(wb == comments_of(b.nodes@, src_b.spec_bytes()));
    let ma = ca.len();
    let mb = cb.len();
    let m = if ma > mb { ma } else { mb };
    let mut i: usize = 0;
    while i < m
        invariant
            ma == ca@.len(),
            mb == cb@.len(),
            m == (if ma > mb { ma } else { mb }),
            i <= m,
            i <= ma && i <= mb,
            wa == text_views(ca@),
            wb == text_views(cb@),
            wa == comments_of(a.nodes@, src_a.spec_bytes()),
            wb == comments_of(b.nodes@, src_b.spec_bytes()),
            structure_of(a.nodes@, src_a.spec_bytes()) == structure_of(b.nodes@, src_b.spec_bytes()),
            forall|q: int| 0 <= q < i ==> wa[q] == wb[q],
        decreases m - i,
    {
        if i < ma && i < mb && str_eq(ca[i], cb[i]) {
            assert(wa[i as int] == wb[i as int]);
            i = i + 1;
        } else {
            proof {
                assert(wa != wb) by {
                    if wa.len() == wb.len() {
                        assert(wa[i as int] != wb[i as int]);
                    }
                }
            }
            let expected = if i < ma {
                Some(ca[i].to_owned())
            } else {
                None
            };
            let found = if i < mb {
                Some(cb[i].to_owned())
            } else {
                None
            };
            proof {
                assert(first_difference(wa, wb, i as int));
                if i < ma {
                    assert(wa[i as int] == ca@[i as int]@);
                }
                if i < mb {
                    assert(wb[i as int] == cb@[i as int]@);
                }
            }
            return Some(Mismatch::Comment(CommentMismatch { index: i, expected, found }));
        }
    }
    assert(wa =~= wb);
    None
}

/// `T_a ≈ T_b`, defined as "no first divergence" (one definition of `≈`).
pub fn equivalent(a: &Cst, src_a: &str, b: &Cst, src_b: &str) -> (r: bool)
    requires
        a.wf(),
        b.wf(),
    ensures
        r == equiv_spec(a.nodes@, src_a.spec_bytes(), b.nodes@, src_b.spec_bytes()),
{
    first_divergence(a, src_a, b, src_b).is_none()
}

/// The pure-layout self-check: parse, format, re-parse, and compare the two
/// trees under `≈`. `Ok(())` when the formatted output is `≈` the input, the
/// witnessing [`Mismatch`] otherwise. Total; it does not short-circuit on parse
/// errors. (A source the parser declines is formatted to itself, which is `≈`
/// itself.)
pub fn verify(src: &str, style: &Style) -> (r: Result<(), Mismatch>)
    requires
        style.wf(),
        src.spec_bytes().len() <= u32::MAX,
    ensures
        source_cst(src@) is None ==> r is Ok,
        r is Err ==> source_cst(src@) is Some,
{
    let formatted = crate::emit::format(src, style);
    verify_against(src, formatted.as_str())
}

/// Check a formatting `formatted` of `src` against it: `Ok` when the parser
/// declines `src`; else an error when it declines `formatted`, and otherwise
/// `Ok` exactly when the two parses are `≈`.
pub fn verify_against(src: &str, formatted: &str) -> (r: Result<(), Mismatch>)
    ensures
        source_cst(src@) is None ==> r is Ok,
        source_cst(src@) is Some && source_cst(formatted@) is None ==> r is Err,
        source_cst(src@) is Some && source_cst(formatted@) is Some ==> (r is Ok <==> equiv_spec(
            source_cst(src@)->0,
            src.spec_bytes(),
            source_cst(formatted@)->0,
            formatted.spec_bytes(),
        )),
{
    let cst_in = match read_source(src) {
        Some(c) => c,
        None => {
            return Ok(());
        },
    };
    let cst_out = match read_source(formatted) {
        Some(c) => c,
        None => {
            let end = src.len();
            return Err(
                Mismatch::Structure(Box::new(StructuralMismatch { start: end, end, expected: None, found: None })),
            );
        },
    };
    match first_divergence(&cst_in, src, &cst_out, formatted) {
        None => Ok(()),
        Some(m) => Err(m),
    }
}

/// The result of a round-trip `≈` check, scoped to the error domain.
#[derive(Debug)]
pub enum Outcome {
    /// Error-free input whose formatted output re-parses `≈` to it.
    Equivalent,
    /// Input whose parse carries `ERROR` / `MISSING` nodes: the format ran; `≈`
    /// is not asserted.
    InputHasError,
    /// Error-free input whose output is not `≈` to it, with that output.
    NotEquivalent { formatted: String },
}

/// Format `src` at `width`, re-parse, and classify the round trip against `≈`;
/// the format always runs, the `≈` verdict is given only for error-free input:
/// input whose parse carries errors is `InputHasError`, and a verdict is never
/// given for it.
pub fn roundtrip_outcome(src: &str, width: usize) -> (r: Outcome)
    requires
        src.spec_bytes().len() <= u32::MAX,
    ensures
        source_has_error(src@) ==> r is InputHasError,
        !(r is InputHasError) ==> !source_has_error(src@) && source_cst(src@) is Some,
{
    let style = Style::default().with_line_width(width);
    let out = crate::emit::format(src, &style);
    if has_error(src) {
        return Outcome::InputHasError;
    }
    let cst_in = match read_source(src) {
        Some(c) => c,
        None => {
            return Outcome::InputHasError;
        },
    };
    let cst_out = match read_source(out.as_str()) {
        Some(c) => c,
        None => {
            return Outcome::NotEquivalent { formatted: out };
        },
    };
    if equivalent(&cst_in, src, &cst_out, out.as_str()) {
        Outcome::Equivalent
    } else {
        Outcome::NotEquivalent { formatted: out }
    }
}

} // verus!
