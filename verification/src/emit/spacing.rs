//! Spacing: one bracket-depth count for separators, plus fixed rules for
//! operators and signs. Every tight join is also a correctness obligation: it is
//! permitted only where `fusion::fuses` is false for that seam.

use crate::text::str_eq;
use vstd::prelude::*;

verus! {

/// A join decision between two adjacent tokens.
#[derive(Clone, Copy, Debug, PartialEq, Eq, Structural)]
pub enum Sep {
    /// No space and no break point (an abutment).
    Tight,
    /// A space when flat, a break point when broken.
    Spaced,
}

/// Comma / separator spacing: tight only when at least two brackets deep, so a
/// top-level body conjunction (`b1, b2`) and a single-bracket argument list
/// (`conflict(T1, T2)`) stay spaced, but a nested tuple inside a brace tightens.
pub fn comma_spacing(bracket_depth: usize) -> (s: Sep)
    ensures
        s == (if bracket_depth >= 2 { Sep::Tight } else { Sep::Spaced }),
{
    if bracket_depth >= 2 {
        Sep::Tight
    } else {
        Sep::Spaced
    }
}

/// Theory operators are never tightened (greedy maximal munch: `+ +` is not `++`).
pub fn theory_operator_spacing() -> (s: Sep)
    ensures
        s == Sep::Spaced,
{
    Sep::Spaced
}

/// Sign spacing: `not` / `not not` are spaced (`not p` is not `notp`); a classical
/// or unary `-` / `~` abuts its operand.
pub fn sign_spacing(sign: &str) -> (s: Sep)
    ensures
        s == (if sign@ == "not"@ || sign@ == "not not"@ { Sep::Spaced } else { Sep::Tight }),
{
    if str_eq(sign, "not") || str_eq(sign, "not not") {
        Sep::Spaced
    } else {
        Sep::Tight
    }
}

/// Arithmetic / term operators tighten one bracket level earlier than commas:
/// spaced at the top body level (`X = Y + Z`), tight inside any bracket.
pub fn term_operator_spacing(bracket_depth: usize) -> (s: Sep)
    ensures
        s == (if bracket_depth >= 1 { Sep::Tight } else { Sep::Spaced }),
{
    if bracket_depth >= 1 {
        Sep::Tight
    } else {
        Sep::Spaced
    }
}

} // verus!
