//! The layout model — the single home of the house-style constants.

use vstd::prelude::*;

verus! {

/// The house style: one user-facing knob (the line width) and two fixed
/// constants (the block indent and the rule-neck hang).
#[derive(Clone, Debug, PartialEq, Eq)]
pub struct Style {
    line_width: usize,
    indent: usize,
    neck_width: usize,
}

impl Style {
    /// The configured target width.
    pub closed spec fn width_spec(&self) -> usize {
        self.line_width
    }

    /// The block indent of the style.
    pub closed spec fn indent_spec(&self) -> usize {
        self.indent
    }

    /// The rule-neck hang of the style.
    pub closed spec fn neck_spec(&self) -> usize {
        self.neck_width
    }

    /// Every style carries a line width of at least one column and the fixed
    /// house constants.
    pub closed spec fn wf(&self) -> bool {
        self.line_width >= 1 && self.indent == 4 && self.neck_width == 3
    }

    /// Set the one user-facing knob, clamped to the floor of 1.
    pub fn with_line_width(self, cols: usize) -> (s: Self)
        ensures
            s.width_spec() == (if cols == 0 { 1 } else { cols }),
            s.indent_spec() == self.indent_spec(),
            s.neck_spec() == self.neck_spec(),
            self.wf() ==> s.wf(),
    {
        let mut s = self;
        s.line_width = if cols == 0 { 1 } else { cols };
        s
    }

    /// The target width.
    pub fn line_width(&self) -> (w: usize)
        ensures
            w == self.width_spec(),
    {
        self.line_width
    }

    /// A valid style carries the house constants: a block indent of 4 and a
    /// rule-neck hang of 3.
    pub proof fn lemma_house_constants(&self)
        requires
            self.wf(),
        ensures
            self.indent_spec() == 4,
            self.neck_spec() == 3,
            self.width_spec() >= 1,
    {
    }

    /// The block indent.
    pub fn indent(&self) -> (i: usize)
        ensures
            i == self.indent_spec(),
    {
        self.indent
    }

    /// The rule-neck hang (`:- ` is three columns).
    pub fn neck_width(&self) -> (n: usize)
        ensures
            n == self.neck_spec(),
    {
        self.neck_width
    }
}

impl Default for Style {
    fn default() -> (s: Self)
        ensures
            s.width_spec() == 100,
            s.indent_spec() == 4,
            s.neck_spec() == 3,
            s.wf(),
    {
        Style { line_width: 100, indent: 4, neck_width: 3 }
    }
}

} // verus!
