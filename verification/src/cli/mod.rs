//! The command-line front end's decisions, as plain values: the argument
//! model, the per-file action taxonomy and exit-code reduction, the per-source
//! format/skip decision, what a target's processing must do, and the run
//! summary, the `--diff` text and the selection of walked files. Reading,
//! writing and the directory walk itself are the binary's business.

pub mod args;
pub mod diff;
pub mod outcome;
pub mod process;
pub mod run;
pub mod select;
