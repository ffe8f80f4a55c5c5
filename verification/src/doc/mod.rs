//! A small strict (non-lazy) Wadler/Lindig pretty-printing engine.
//!
//! Build a document with [`DocBuilder`], then render it to a string at a
//! target width. The algebra is the primitives of Lindig's *Strictly Pretty*
//! plus a `verbatim` leaf for byte-exact spans.

pub mod arena;
pub mod builder;
pub mod render;

pub use arena::{DocNode, NodeId, Range, Span};
pub use builder::{Doc, DocBuilder};
