//! The `--diff` rendering: a unified diff of a source against its formatted
//! text, computed by `similar`. Writing it out is the binary's business.

use vstd::prelude::*;

verus! {

/// The unified diff `similar` renders for `old` against `new`, diffed line by
/// line with no deadline, with `radius` lines of context around each hunk and
/// `label` as both file names of its header.
pub uninterp spec fn unified_diff_spec(old: Seq<char>, new: Seq<char>, radius: usize, label: Seq<char>) -> Seq<char>;

/// `similar::TextDiff::from_lines(old, new).unified_diff()` with
/// `context_radius(radius)` and `header(label, label)`, rendered through its
/// `Display` impl. A line diff with no deadline set is a function of its inputs,
/// so the text is named as one; its hunk layout is the crate's.
#[verifier::external_body]
fn unified_diff(old: &str, new: &str, radius: usize, label: &str) -> (d: String)
    requires
        radius <= usize::MAX / 4,
    ensures
        d@ == unified_diff_spec(old@, new@, radius, label@),
{
    let diff = similar::TextDiff::from_lines(old, new);
    let mut ud = diff.unified_diff();
    ud.context_radius(radius).header(label, label);
    ud.to_string()
}

/// The lines of context shown around each changed hunk.
pub const DIFF_CONTEXT: usize = 3;

/// The `--diff` text for a target labelled `label`: the unified diff of its
/// source `old` against the formatted `new`, with three lines of context and
/// the label naming both sides.
pub fn render_diff(old: &str, new: &str, label: &str) -> (d: String)
    ensures
        d@ == unified_diff_spec(old@, new@, DIFF_CONTEXT, label@),
{
    unified_diff(old, new, DIFF_CONTEXT, label)
}

} // verus!
