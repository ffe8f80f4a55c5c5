//! The sole text-producing path of the emitter. The only way to make leaf text
//! is to slice the source, so leaf text is always a verbatim source slice. A
//! slice with an embedded newline becomes a `verbatim` span (byte-exact, no
//! re-indent); the empty slice (a zero-width node) becomes `nil`.

use super::{doc_ok, e_nil, grows, lemma_pushed_ok, Ctx};
use crate::comments::{contains_newline, has_newline};
use crate::doc::arena::{DocNode, NodeId, Span};
use crate::doc::builder::DocBuilder;
use crate::text::{display_width_spec, slice_ok, try_slice};
use vstd::prelude::*;
use vstd::string::StringSliceAdditionalSpecFns;

verus! {

/// The Doc node `token` makes for the source bytes `[start, end)`: nothing for
/// an empty or uncuttable slice, a verbatim span for a newline-bearing one, a
/// leaf otherwise.
pub open spec fn token_node(src: Seq<u8>, start: int, end: int) -> Option<DocNode> {
    if !slice_ok(src, start, end) || start == end {
        None
    } else if has_newline(src, start, end) {
        Some(DocNode::Verbatim(Span { start: start as u32, len: (end - start) as u32, width: 0 }))
    } else {
        let w = display_width_spec(vstd::utf8::decode_utf8(src.subrange(start, end)));
        Some(
            DocNode::Leaf(
                Span {
                    start: start as u32,
                    len: (end - start) as u32,
                    width: if w <= u32::MAX { w as u32 } else { u32::MAX },
                },
            ),
        )
    }
}

/// Emit the source bytes `[start, end)` as one Doc leaf — the single point at
/// which leaf text enters the document.
pub fn token_span(ctx: &Ctx, start: usize, end: usize, b: &mut DocBuilder) -> (id: NodeId)
    requires
        ctx.ok(),
        doc_ok(*old(b), ctx.bytes@),
    ensures
        doc_ok(*final(b), ctx.bytes@),
        grows(*old(b), *final(b)),
        id < final(b).nodes_spec().len(),
        match token_node(ctx.bytes@, start as int, end as int) {
            Some(n) => crate::doc::builder::pushed(old(b).nodes_spec(), final(b).nodes_spec(), n, id),
            None => crate::doc::builder::pushed(old(b).nodes_spec(), final(b).nodes_spec(), DocNode::Nil, id),
        },
{
    let slice = match try_slice(ctx.src, start, end) {
        Some(s) => s,
        None => {
            let ghost b0 = *b;
            let id = b.nil();
            proof {
                lemma_pushed_ok(b0, *b, DocNode::Nil, id, ctx.bytes@);
            }
            return id;
        },
    };
    let ghost b0 = *b;
    if start == end {
        let id = b.nil();
        proof {
            lemma_pushed_ok(b0, *b, DocNode::Nil, id, ctx.bytes@);
        }
        return id;
    }
    assert(slice.spec_bytes().len() == end - start);
    if contains_newline(ctx.bytes, start, end) {
        let id = b.verbatim(start as u32, slice);
        proof {
            let n = DocNode::Verbatim(Span { start: start as u32, len: (end - start) as u32, width: 0 });
            lemma_pushed_ok(b0, *b, n, id, ctx.bytes@);
        }
        id
    } else {
        let id = b.leaf(start as u32, slice);
        proof {
            let n = token_node(ctx.bytes@, start as int, end as int).unwrap();
            lemma_pushed_ok(b0, *b, n, id, ctx.bytes@);
        }
        id
    }
}

/// Emit node `i`'s verbatim source slice as one Doc leaf.
pub fn token(ctx: &Ctx, i: usize, b: &mut DocBuilder) -> (id: NodeId)
    requires
        ctx.ok(),
        i < ctx.cst.nodes@.len(),
        doc_ok(*old(b), ctx.bytes@),
    ensures
        doc_ok(*final(b), ctx.bytes@),
        grows(*old(b), *final(b)),
        id < final(b).nodes_spec().len(),
        match token_node(ctx.bytes@, ctx.cst.nodes@[i as int].start as int, ctx.cst.nodes@[i as int].end as int) {
            Some(n) => crate::doc::builder::pushed(old(b).nodes_spec(), final(b).nodes_spec(), n, id),
            None => crate::doc::builder::pushed(old(b).nodes_spec(), final(b).nodes_spec(), DocNode::Nil, id),
        },
{
    let n = ctx.cst.nodes[i];
    token_span(ctx, n.start, n.end, b)
}

} // verus!
