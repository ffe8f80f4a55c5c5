//! `kallos` is a pure-layout source formatter for ASP / clingo (`.lp`): it
//! re-spaces and re-indents a program to a consistent house style, preserving
//! the program's meaning and its comments exactly.

pub mod cli;
pub mod comments;
pub mod cst;
pub mod doc;
pub mod emit;
pub mod equiv;
pub mod fusion;
pub mod style;
pub mod text;

pub use cst::has_error;
pub use equiv::{verify, CommentMismatch, Mismatch, StructuralMismatch};
pub use style::Style;
