//! The command-line argument model and its validated views. A non-positive or
//! non-numeric `--line-width` is a usage error before the runner is reached.

use crate::style::Style;
use vstd::prelude::*;
use vstd::string::StringExecFns;

verus! {

/// `kallos` — a pure-layout source formatter for ASP/clingo (`.lp`).
///
/// With no paths (or a `-`) it reads stdin and writes the formatted result to
/// stdout. With paths it formats files in place; directories are searched for
/// `.lp` files.
#[derive(Clone, Debug)]
pub struct Cli {
    /// Files or directories to format.
    pub paths: Vec<String>,
    /// Maximum line width in columns (at least 1).
    pub line_width: usize,
    /// Do not write files back; exit non-zero if any file would change.
    pub check: bool,
    /// Do not write files back; print a unified diff of each change.
    pub diff: bool,
    /// Refuse to write any file whose result is not `≈` its input.
    pub safe: bool,
    /// Globs of files to format when searching a directory (default `*.lp`).
    pub includes: Vec<String>,
    /// Globs of files to skip when searching a directory.
    pub exclude: Vec<String>,
    /// Additional globs to skip.
    pub extend_exclude: Vec<String>,
}

/// The value of the decimal numeral `d`, or `None` when a character of it is
/// not an ASCII digit (the empty numeral has the value 0).
pub open spec fn digits_value(d: Seq<char>) -> Option<nat>
    decreases d.len(),
{
    if d.len() == 0 {
        Some(0)
    } else {
        let c = d.last() as u32;
        match digits_value(d.drop_last()) {
            Some(v) => if 48 <= c <= 57 {
                Some(v * 10 + (c - 48) as nat)
            } else {
                None
            },
            None => None,
        }
    }
}

/// What `usize::from_str` makes of a string: an optional `+` and at least one
/// ASCII digit whose value fits in a `usize`; `None` for anything else.
pub open spec fn parse_usize_spec(s: Seq<char>) -> Option<usize> {
    let d = if s.len() > 0 && s[0] == '+' {
        s.drop_first()
    } else {
        s
    };
    if d.len() == 0 {
        None
    } else {
        match digits_value(d) {
            Some(v) => if v <= usize::MAX {
                Some(v as usize)
            } else {
                None
            },
            None => None,
        }
    }
}

/// `str::parse::<usize>` (`usize::from_str`): the documented grammar of
/// unsigned integers in base 10.
#[verifier::external_body]
fn parse_usize(s: &str) -> (r: Option<usize>)
    ensures
        r == parse_usize_spec(s@),
{
    s.parse::<usize>().ok()
}

/// The `--line-width` value parser: a positive integer. A non-numeric value or
/// zero is refused with a message.
pub fn parse_line_width(s: &str) -> (r: Result<usize, String>)
    ensures
        match parse_usize_spec(s@) {
            Some(n) => if n == 0 {
                r matches Err(m) && m@ == "must be at least 1"@
            } else {
                r == Ok::<usize, String>(n)
            },
            None => r matches Err(m) && m@ == "`"@ + s@ + "` is not a non-negative integer"@,
        },
{
    match parse_usize(s) {
        Some(n) => {
            if n == 0 {
                Err(String::from_str("must be at least 1"))
            } else {
                Ok(n)
            }
        },
        None => Err(String::from_str("`").concat(s).concat("` is not a non-negative integer")),
    }
}

impl Cli {
    /// The layout style carrying `--line-width` (clamped to at least 1).
    pub fn style(&self) -> (s: Style)
        ensures
            s.wf(),
            s.width_spec() == if self.line_width == 0 { 1 } else { self.line_width },
    {
        Style::default().with_line_width(self.line_width)
    }
}

} // verus!
